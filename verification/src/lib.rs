//! Verified core of a fast file-system indexer: directory-entry decoding,
//! traversal decisions, record batching, fuzzy-search ranking, and the
//! small text encoders used by the UI.

pub mod encoding;
pub mod icons;
pub mod listing;
pub mod metrics;
pub mod models;
pub mod platform;
pub mod scanner;
pub mod search;
pub mod symlink;
pub mod text;
pub mod watcher;
