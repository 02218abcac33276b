//! Checks Dualis for new or changed grades and decides what to report.

pub mod text;
pub mod matching;
pub mod table;
pub mod compare;
pub mod state;
pub mod state_laws;
pub mod config;
pub mod dualis;
pub mod gotify;
pub mod schedule;
pub mod spans;
pub mod parse;
pub mod cache;
pub mod notifier;
