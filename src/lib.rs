//! Parsing of authentication logs and the analyses run over them:
//! aggregate counts, detection of suspicious addresses and a per-address
//! risk ranking.

pub mod entry;
pub mod filter;
pub mod grammar;
pub mod laws;
pub mod order;
pub mod risk;
pub mod stats;
pub mod tab;
pub mod text;

pub use entry::LogEntry;
pub use filter::{filter_logs, passes_filter};
pub use grammar::{parse_line, parse_logs};
pub use risk::{calculate_risk_scores, RiskScore, MAX_ENTRIES};
pub use stats::{analyze_logs, detect_suspicious_ips, LogStats};
pub use tab::Tab;
