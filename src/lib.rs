//! A micro-journal: an append-only log of short entries, queried by day,
//! date range, time window and recency, merged into daily documents, and
//! rendered as Markdown, Obsidian Markdown, plain text or JSON.

pub mod consolidate;
pub mod date;
pub mod entry;
pub mod error;
pub mod export;
pub mod log;
pub mod man;
pub mod parse;
pub mod store;
pub mod text;
