//! Verified core of a PDF comparison tool: diff report model, text diff
//! mapping, report assembly, exporters' text, scoring counts and page cache.

pub mod strings;
pub mod report;
pub mod loader;
pub mod textdiff;
pub mod cache;
pub mod bench;
pub mod export;
pub mod visual;
pub mod commands;
pub mod search;
pub mod files;
