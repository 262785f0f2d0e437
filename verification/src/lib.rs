//! tsink: an embeddable time-series storage engine.
//!
//! Labeled numeric samples are ingested as rows, sharded into time
//! partitions, and answered back by point-in-time range queries.  The
//! sample codec, the write-ahead log and the partitioned store are all
//! written with machine-checked contracts.

pub mod codec;
pub mod errors;
pub mod labels;
pub mod meta;
pub mod partition;
pub mod series;
pub mod wal;
pub mod storage;
pub mod time;
pub mod types;

pub use errors::TsinkError;
pub use storage::Storage;
pub use storage::StorageBuilder;
pub use time::TimestampPrecision;
pub use time::duration_to_units;
pub use time::now_in_precision;
pub use types::DataPoint;
pub use types::Label;
pub use types::Row;
