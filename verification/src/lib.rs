//! Deterministic text processing for the limae Markdown linter.

pub mod text;
pub mod pipeline;
pub mod config;
pub mod config_text;
pub mod directives;
pub mod hook;
pub mod files;
pub mod markdown;
pub mod pattern;
pub mod report;
