//! What a scan is asked to measure.

use vstd::prelude::*;

use crate::tree::node::Metric;

verus! {

/// Whether a volume's file table is read instead of its directories.
#[derive(Clone, Copy, Debug, PartialEq, Eq, Structural)]
pub enum FileTable {
    /// Where it can be, for a whole drive or the home directory.
    Auto,
    Never,
}

/// What a scan measures, and how.
#[derive(Clone, Copy, Debug, PartialEq, Eq, Structural)]
pub struct ScanOptions {
    /// Measure apparent length instead of allocated blocks.
    pub apparent_size: bool,
    /// Take in names that start with a dot.
    pub include_hidden: bool,
    /// Stay on the volume that the root is on.
    pub one_filesystem: bool,
    /// Follow symlinks.
    pub follow_links: bool,
    /// Charge a file with several names once.
    pub dedup_hardlinks: bool,
    /// List nothing further below the root than this.
    pub max_depth: Option<usize>,
    /// What the tree is ordered by.
    pub metric: Metric,
    pub file_table: FileTable,
}

/// The options of a scan that was asked for nothing else.
pub open spec fn default_options() -> ScanOptions {
    ScanOptions {
        apparent_size: false,
        include_hidden: true,
        one_filesystem: true,
        follow_links: false,
        dedup_hardlinks: true,
        max_depth: None,
        metric: Metric::Bytes,
        file_table: FileTable::Auto,
    }
}

impl Default for ScanOptions {
    fn default() -> (options: Self)
        ensures
            options == default_options(),
    {
        ScanOptions {
            apparent_size: false,
            include_hidden: true,
            one_filesystem: true,
            follow_links: false,
            dedup_hardlinks: true,
            max_depth: None,
            metric: Metric::Bytes,
            file_table: FileTable::Auto,
        }
    }
}

} // verus!
