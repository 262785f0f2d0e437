use vstd::prelude::*;

verus! {

/// The error taxonomy of the engine.
///
/// Validation errors are returned before any state changes; corruption
/// errors surface only on the query that touched the corrupt data.
#[derive(Clone, Copy, PartialEq, Eq, Structural, Debug)]
pub enum TsinkError {
    /// A row or a query carried an empty metric name.
    MetricRequired,
    /// A range query with `start >= end`.
    InvalidTimeRange { start: i64, end: i64 },
    /// A write whose timestamp falls into an already-flushed partition.
    PastWindow,
    /// An operating-system read, write, rename or fsync failure.
    IoFailure,
    /// An encoded series block failed its integrity check.
    CorruptBlock,
    /// A write-ahead log record mid-stream is malformed.
    CorruptWal,
    /// Another process holds the data directory lock.
    DataPathLocked,
}

} // verus!
