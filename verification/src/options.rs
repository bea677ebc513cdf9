use vstd::prelude::*;

verus! {

/// The default per-segment size threshold in bytes, used when a caller
/// leaves `file_threshold` at zero.
pub const DEFAULT_FILE_THRESHOLD: usize = 200 * 1024;

/// Which in-memory key directory the engine is opened with.
#[derive(Debug, Clone, Copy, PartialEq, Eq, Structural)]
pub enum IndexType {
    /// Hashed (unordered) key directory.
    Hash,
    /// Ordered key directory.
    BTree,
    /// Reserved; not yet supported.
    SkipList,
}

/// The immutable configuration of an engine.
#[derive(Debug, Clone)]
pub struct Options {
    /// Directory that holds the data files; must be non-empty.
    pub dir_path: String,

    /// Per-segment size threshold in bytes; 0 selects the default.
    pub file_threshold: usize,

    /// Whether to sync after every single write.
    pub syn_after_each_write: bool,
}

} // verus!
