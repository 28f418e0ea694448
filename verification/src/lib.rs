//! Server log analysis: per-line field extraction over mixed log formats,
//! an append-only collection of extracted records with filtering, and an
//! aggregation pass that reduces a collection to summary statistics.

pub mod collection;
pub mod extract;
pub mod json;
pub mod level;
pub mod stats;
pub mod text;

pub use collection::{AnalyzerError, Logs, ParseResult, ParseWarning};
pub use extract::{IpAddress, LogEntry};
pub use level::{LogLevel, LogLevelParseError, LogMethod, LogMethodParseError};
pub use stats::{CountMap, LogStats, RateBand};
