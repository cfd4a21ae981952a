//! The configuration of one run.

use vstd::prelude::*;

verus! {

/// Which byte count stands for the size of a file.
#[derive(Clone, Copy, Debug, PartialEq, Eq, Structural)]
pub enum DiskUsage {
    /// The length of the file's contents.
    Logical,
    /// The space that the file takes on disk.
    Physical,
}

/// The family of unit prefixes in which sizes are shown.
#[derive(Clone, Copy, Debug, PartialEq, Eq, Structural)]
pub enum PrefixKind {
    /// Powers of 1024.
    Bin,
    /// Powers of 1000.
    Si,
}

/// The key by which siblings are ordered.
#[derive(Clone, Copy, Debug, PartialEq, Eq, Structural)]
pub enum SortKey {
    /// By file name, byte by byte.
    Name,
    /// By size in bytes; an entry without a size counts as empty.
    Size,
    /// Directories before all other entries, then by file name.
    Kind,
}

/// The direction in which siblings are ordered.
#[derive(Clone, Copy, Debug, PartialEq, Eq, Structural)]
pub enum Direction {
    /// Smallest key first.
    Ascending,
    /// Largest key first.
    Descending,
}

/// What a run is configured with: where to walk, what to show, how to order it.
#[derive(Clone, Debug)]
pub struct Context {
    /// The directory at which the walk starts.
    pub dir: String,
    /// The number of threads that walk the file system.
    pub threads: usize,
    /// Whether symbolic links are followed.
    pub follow_links: bool,
    /// Whether the rules of ignore files are left aside.
    pub ignore_git_ignore: bool,
    /// Whether hidden entries are shown.
    pub hidden: bool,
    /// Whether directories without any file below them are dropped.
    pub prune: bool,
    /// Whether only directories are kept.
    pub dirs_only: bool,
    /// The key by which siblings are ordered, if they are ordered at all.
    pub sort: Option<SortKey>,
    /// The direction of that order.
    pub direction: Direction,
    /// Which byte count stands for the size of a file.
    pub disk_usage: DiskUsage,
    /// The family of unit prefixes in which sizes are shown.
    pub prefix: PrefixKind,
    /// The number of decimal places with which sizes are shown.
    pub scale: usize,
    /// The deepest level that is displayed, if there is a limit.
    pub level: Option<usize>,
}

} // verus!
