//! Core of a durable append-only write-ahead log (WAL).
//!
//! The library is split in three layers, leaves first:
//!
//! * a pure record codec: varint (LEB128) lengths, a flags byte, key and
//!   value bytes, and a trailing CRC-32C checksum;
//! * a segment planner: the pure state of the single appender (active
//!   segment id and size), rotation at a size threshold, fsync policy
//!   decisions, and segment file naming;
//! * a recovery scanner: replays segment contents through the codec,
//!   stops at the first bad boundary, and reports what to truncate.
//!
//! All file I/O is left to the caller: every function here works on plain
//! values, so the whole of the log's crash-consistency logic is verified.

pub mod crc;
pub mod observe;
pub mod record;
pub mod recovery;
pub mod segment;
pub mod varint;
pub mod wal;
