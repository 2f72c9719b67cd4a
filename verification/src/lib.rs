//! Per-path traffic metrics for web-server access logs.
//!
//! One raw log file is reduced to a compact aggregated artifact; many
//! artifacts are merged into a single aggregate. Both sides are organized
//! around a prefix tree keyed by path components in which every node carries
//! the metrics aggregated over its whole subtree.
pub mod bytes;
pub mod metric;
pub mod parse;
pub mod stage;
pub mod tree;

pub use metric::Metric;
pub use parse::{LineError, LogDate, LogEntry};
pub use tree::{Node, Tree};
pub use parse::parse_line;
pub use stage::{Reduced, StageError};
