//! Typed observability events and sink traits. The log emits events
//! about its own behaviour through these; key and value bytes are never
//! carried in an event.

use vstd::prelude::*;

verus! {

/// A monotonically increasing counter metric.
pub trait Counter {
    fn inc(&self, v: u64);
}

/// A point-in-time gauge metric.
pub trait Gauge {
    fn set(&self, v: i64);
}

/// A sink that drops everything, for tests and callers that do not
/// collect telemetry.
#[derive(Debug, Clone, Copy, PartialEq, Eq, Structural, Default)]
pub struct NoopMeter;

impl Counter for NoopMeter {
    fn inc(&self, _v: u64) {
    }
}

impl Gauge for NoopMeter {
    fn set(&self, _v: i64) {
    }
}

/// An event about the write-ahead log on one node.
#[derive(Debug, Clone, Copy, PartialEq, Eq, Structural)]
pub struct WalEvt {
    pub node: u32,
    pub seg: u64,
    pub kind: WalKind,
}

/// What happened: a segment rotated (with the old segment's final
/// size), an fsync completed (with its duration), or a corrupted tail
/// was truncated.
#[derive(Debug, Clone, Copy, PartialEq, Eq, Structural)]
pub enum WalKind {
    SegmentRoll { bytes: u64 },
    Fsync { ms: u32 },
    CorruptionTruncated,
}

/// An event about compaction on one node.
#[derive(Debug, Clone, Copy, PartialEq, Eq, Structural)]
pub struct CompEvt {
    pub node: u32,
    pub level: u8,
    pub kind: CompKind,
}

#[derive(Debug, Clone, Copy, PartialEq, Eq, Structural)]
pub enum CompKind {
    Scheduled,
    Start,
    Progress { pct: u8 },
    Finish { in_bytes: u64, out_bytes: u64 },
}

/// An event about consensus on one shard.
#[derive(Debug, Clone, Copy, PartialEq, Eq, Structural)]
pub struct RaftEvt {
    pub shard: u32,
    pub term: u64,
    pub kind: RaftKind,
}

#[derive(Debug, Clone, Copy, PartialEq, Eq, Structural)]
pub enum RaftKind {
    VoteReq { from: u32 },
    VoteGranted { from: u32 },
    LeaderElected { node: u32 },
    StepDown,
}

/// A membership event about one node.
#[derive(Debug, Clone, Copy, PartialEq, Eq, Structural)]
pub struct SwimEvt {
    pub node: u32,
    pub kind: SwimKind,
}

#[derive(Debug, Clone, Copy, PartialEq, Eq, Structural)]
pub enum SwimKind {
    Alive,
    Suspect,
    Confirm,
    Leave,
}

/// A shard-movement event.
#[derive(Debug, Clone, Copy, PartialEq, Eq, Structural)]
pub struct ShardEvt {
    pub shard: u32,
    pub kind: ShardKind,
}

#[derive(Debug, Clone, Copy, PartialEq, Eq, Structural)]
pub enum ShardKind {
    Plan,
    SnapshotStart,
    SnapshotDone,
    Cutover,
}

} // verus!
