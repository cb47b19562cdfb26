//! Verified core of the Linera parsing tools: text handling, Prometheus
//! series assembly, time-stamp formatting and the small decision procedures
//! used by the command-line tools.

pub mod text;
pub mod keys;
pub mod prometheus;
pub mod timefmt;
pub mod analysis;
pub mod extract;
pub mod commands;
pub mod config;
pub mod laws;
pub mod report_laws;
