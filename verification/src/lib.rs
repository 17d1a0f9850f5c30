//! Sharded storage and windowed aggregation of metric samples.
//!
//! Samples of metrics arrive as actions in a binary format, are routed to
//! shards by their metric, and are kept by each shard in files that rotate
//! with the clock. Queries are answered from those files, window by
//! window, and alarms repeat queries against a limit.
//!
//! This library holds the decisions and the formats, and states what they
//! are: the byte forms and their decoding (`wire`, `metric`,
//! `metric::query`), routing (`router`, `connection_handler`), buckets and
//! file names (`bucket`, `names`), rotation
//! (`metric::metric_writer`), the selection of files and samples and their
//! division into windows (`metric::query_handler`, `metric::query`), and
//! the alarm cycle (`alarm`). It opens no file and no connection, reads no
//! clock and starts no thread: its callers do, and carry its decisions
//! out. Samples, window lengths and limits are IEEE-754 singles, held as
//! their 32 bits (`single`); no arithmetic is done on them here.

pub mod alarm;
pub mod bucket;
pub mod connection_handler;
pub mod metric;
pub mod names;
pub mod router;
pub mod single;
pub mod wire;
