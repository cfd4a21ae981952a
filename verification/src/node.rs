//! Entries as the walk reports them, and the nodes that a tree holds.

use crate::context::{Context, DiskUsage, PrefixKind};
use vstd::prelude::*;

verus! {

/// What kind of file-system object an entry is.
#[derive(Clone, Copy, Debug, PartialEq, Eq, Structural)]
pub enum FileType {
    /// A directory.
    Dir,
    /// A regular file.
    File,
    /// A symbolic link.
    Symlink,
    /// Anything else: a socket, a device, a pipe.
    Other,
}

/// The identity of the storage behind an entry, and the number of names it has.
#[derive(Clone, Copy, Debug, PartialEq, Eq, Structural)]
pub struct Inode {
    /// The number of the inode on its device.
    pub ino: u64,
    /// The device.
    pub dev: u64,
    /// The number of hard links to the inode.
    pub nlink: u64,
}

impl Inode {
    /// An inode with the given numbers.
    pub fn new(ino: u64, dev: u64, nlink: u64) -> (inode: Self)
        ensures
            inode == (Inode { ino, dev, nlink }),
    {
        Inode { ino, dev, nlink }
    }

    /// The one number that stands for the pair of device and inode.
    pub open spec fn spec_key(self) -> u128 {
        (self.dev as u128 * 0x1_0000_0000_0000_0000u128 + self.ino as u128) as u128
    }

    /// The one number that stands for the pair of device and inode: two inodes
    /// have the same key exactly when they lie on the same device under the same
    /// number.
    pub fn key(&self) -> (key: u128)
        ensures
            key == self.spec_key(),
            key == self.dev * 0x1_0000_0000_0000_0000 + self.ino,
    {
        self.dev as u128 * 0x1_0000_0000_0000_0000u128 + self.ino as u128
    }
}

/// A byte count together with the units in which it is to be shown.
#[derive(Clone, Copy, Debug, PartialEq, Eq, Structural)]
pub struct FileSize {
    /// The number of bytes.
    pub bytes: u64,
    /// Which byte count of a file this is.
    pub disk_usage: DiskUsage,
    /// The family of unit prefixes in which it is shown.
    pub prefix_kind: PrefixKind,
    /// The number of decimal places with which it is shown.
    pub scale: usize,
}

impl FileSize {
    /// A size of `bytes` bytes, shown in the given units.
    pub fn new(bytes: u64, disk_usage: DiskUsage, prefix_kind: PrefixKind, scale: usize) -> (size:
        Self)
        ensures
            size == (FileSize { bytes, disk_usage, prefix_kind, scale }),
    {
        FileSize { bytes, disk_usage, prefix_kind, scale }
    }

    /// A size of `bytes` bytes in the units that `ctx` asks for.
    pub open spec fn of(bytes: u64, ctx: Context) -> FileSize {
        FileSize { bytes, disk_usage: ctx.disk_usage, prefix_kind: ctx.prefix, scale: ctx.scale }
    }

    /// The size that a directory shows for a sum of `total` bytes: none for a sum
    /// of zero.
    pub open spec fn sized(total: nat, ctx: Context) -> Option<FileSize> {
        if total > 0 {
            Some(FileSize::of(total as u64, ctx))
        } else {
            None
        }
    }

    /// Adds `bytes` to the count and leaves the units as they are.
    pub fn add_bytes(&mut self, bytes: u64)
        requires
            old(self).bytes + bytes <= u64::MAX,
        ensures
            *final(self) == (FileSize { bytes: (old(self).bytes + bytes) as u64, ..*old(self) }),
    {
        self.bytes = self.bytes + bytes;
    }
}

/// One file-system object as the walk found it.
#[derive(Clone, Debug)]
pub struct Entry {
    /// The path of the object.
    pub path: String,
    /// The last component of the path.
    pub file_name: String,
    /// The path of the directory that holds the object, if it has one.
    pub parent: Option<String>,
    /// The number of directories between the root of the walk and the object;
    /// the root itself has depth 0.
    pub depth: usize,
    /// The kind of the object.
    pub file_type: FileType,
    /// The number of bytes of the object; it counts for regular files only.
    pub size: Option<u64>,
    /// The identity of the storage behind the object, where the platform has one.
    pub inode: Option<Inode>,
}

impl Entry {
    /// The number of bytes that the entry adds to the directories above it.
    pub open spec fn spec_weight(self) -> nat {
        match (self.file_type, self.size) {
            (FileType::File, Some(bytes)) => bytes as nat,
            _ => 0,
        }
    }

    /// The number of bytes that the entry adds to the directories above it:
    /// its size if it is a regular file with a known size, nothing otherwise.
    pub fn weight(&self) -> (bytes: u64)
        ensures
            bytes == self.spec_weight(),
    {
        match (self.file_type, self.size) {
            (FileType::File, Some(bytes)) => bytes,
            _ => 0,
        }
    }
}

/// One node of a tree: an entry, and the size that is shown for it.
#[derive(Clone, Debug)]
pub struct Node {
    entry: Entry,
    file_size: Option<FileSize>,
}

impl Node {
    /// The entry that the node was made from.
    pub closed spec fn entry(self) -> Entry {
        self.entry
    }

    /// The size of the node: that of the entry for a regular file, the sum over
    /// what lies below for a directory that has been assembled.
    pub closed spec fn size(self) -> Option<FileSize> {
        self.file_size
    }

    /// The node that a fresh entry becomes under `ctx`.
    pub open spec fn fresh(entry: Entry, ctx: Context) -> Node {
        Node::from_parts(
            entry,
            match (entry.file_type, entry.size) {
                (FileType::File, Some(bytes)) => Some(FileSize::of(bytes, ctx)),
                _ => None,
            },
        )
    }

    /// The node with the given entry and size.
    pub closed spec fn from_parts(entry: Entry, size: Option<FileSize>) -> Node {
        Node { entry, file_size: size }
    }

    /// The same node with another size.
    pub open spec fn with_size(self, size: Option<FileSize>) -> Node {
        Node::from_parts(self.entry(), size)
    }

    /// A node is known by its entry and its size.
    pub broadcast proof fn parts(entry: Entry, size: Option<FileSize>)
        ensures
            (#[trigger] Node::from_parts(entry, size)).entry() == entry,
            Node::from_parts(entry, size).size() == size,
    {
    }

    /// Two nodes with the same entry and the same size are the same node.
    pub proof fn same(self, other: Node)
        requires
            self.entry() == other.entry(),
            self.size() == other.size(),
        ensures
            self == other,
    {
    }

    /// Whether the node is a directory.
    pub open spec fn spec_is_dir(self) -> bool {
        self.entry().file_type == FileType::Dir
    }

    /// The number of bytes of the node, none for a node without a size.
    pub open spec fn spec_bytes(self) -> nat {
        match self.size() {
            Some(size) => size.bytes as nat,
            None => 0,
        }
    }

    /// Makes the node for an entry. A regular file of known length gets that
    /// length as its size, in the units of `ctx`; every other node starts
    /// without a size.
    pub fn new(entry: Entry, ctx: &Context) -> (node: Self)
        ensures
            node == Node::fresh(entry, *ctx),
    {
        let file_size = match (entry.file_type, entry.size) {
            (FileType::File, Some(bytes)) => Some(
                FileSize::new(bytes, ctx.disk_usage, ctx.prefix, ctx.scale),
            ),
            _ => None,
        };
        Node { entry, file_size }
    }

    /// The path of the node.
    pub fn path(&self) -> (path: &String)
        ensures
            *path == self.entry().path,
    {
        &self.entry.path
    }

    /// The last component of the path.
    pub fn file_name(&self) -> (name: &String)
        ensures
            *name == self.entry().file_name,
    {
        &self.entry.file_name
    }

    /// The path of the directory that holds the node, if it has one.
    pub fn parent_path(&self) -> (parent: Option<&String>)
        ensures
            match parent {
                Some(path) => self.entry().parent == Some(*path),
                None => self.entry().parent is None,
            },
    {
        self.entry.parent.as_ref()
    }

    /// The depth of the node below the root of the walk.
    pub fn depth(&self) -> (depth: usize)
        ensures
            depth == self.entry().depth,
    {
        self.entry.depth
    }

    /// The kind of the node.
    pub fn file_type(&self) -> (kind: FileType)
        ensures
            kind == self.entry().file_type,
    {
        self.entry.file_type
    }

    /// Whether the node is a directory.
    pub fn is_dir(&self) -> (dir: bool)
        ensures
            dir == self.spec_is_dir(),
    {
        matches!(self.entry.file_type, FileType::Dir)
    }

    /// Whether the node is a symbolic link.
    pub fn is_symlink(&self) -> (link: bool)
        ensures
            link == (self.entry().file_type == FileType::Symlink),
    {
        matches!(self.entry.file_type, FileType::Symlink)
    }

    /// The size of the node, if it has one.
    pub fn file_size(&self) -> (size: Option<FileSize>)
        ensures
            size == self.size(),
    {
        self.file_size
    }

    /// The identity of the storage behind the node, where the platform has one.
    pub fn inode(&self) -> (inode: Option<Inode>)
        ensures
            inode == self.entry().inode,
    {
        self.entry.inode
    }

    /// Gives the node a size.
    pub fn set_file_size(&mut self, size: FileSize)
        ensures
            *final(self) == old(self).with_size(Some(size)),
    {
        self.file_size = Some(size);
    }
}

} // verus!
