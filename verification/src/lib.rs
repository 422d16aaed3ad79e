//! Log analysis library: parses timestamped log lines into typed entries,
//! filters them by keyword and time window, and derives summary statistics
//! (level distribution, time span, frequent keywords).

pub mod analyzer;
pub mod filter;
pub mod parser;
pub mod report;
pub mod text;

pub use analyzer::{AnalysisView, LogAnalysis, LogAnalyzer};
pub use filter::apply_filters;
pub use parser::{EntryView, LogEntry, LogLevel, LogParser, Timestamp};
pub use report::ReportGenerator;
