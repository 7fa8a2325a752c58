//! A personal shell-command history engine.
//!
//! Raw history lines from different shells are parsed into timestamped
//! command records, kept in a record store beside a full-text index that
//! never diverges from it, and served back through ordered, bounded and
//! filtered queries (most recent, oldest, full listing, free-text search,
//! frequency ranking).

pub mod encode;
pub mod models;
pub mod order;
pub mod parse;
pub mod store;
pub mod text;
pub mod types;
