//! Aggregation of severity-tagged log lines from many per-node log files into
//! one report ordered by date and time.

pub mod text;
pub mod brackets;
pub mod node;
pub mod classify;
pub mod sorting;
pub mod report;
pub mod pipeline;
