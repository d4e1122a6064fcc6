//! The log's top-level configuration.

use vstd::prelude::*;
use vstd::string::StringExecFns;
use crate::segment::FsyncPolicy;

verus! {

/// Configuration of a write-ahead log.
#[derive(Debug, Clone)]
pub struct WalConfig {
    /// Directory the segment files live in.
    pub dir: String,
    /// Soft rotation threshold in bytes.
    pub max_segment_size: u64,
    /// When appends flush to stable storage.
    pub fsync_policy: FsyncPolicy,
    /// Carried in observability events, nothing else.
    pub node_id: u32,
}

impl Default for WalConfig {
    /// 128 MiB segments under `wal`, batched fsync every five
    /// milliseconds, node 0.
    fn default() -> (r: Self)
        ensures
            r.dir@ == "wal"@,
            r.max_segment_size == 134217728,
            r.fsync_policy == FsyncPolicy::Batch(5),
            r.node_id == 0,
    {
        WalConfig {
            dir: String::from_str("wal"),
            max_segment_size: 134217728,
            fsync_policy: FsyncPolicy::Batch(5),
            node_id: 0,
        }
    }
}

} // verus!
