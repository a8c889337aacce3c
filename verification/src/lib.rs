//! An incremental multi-source search-and-ranking engine for an interactive
//! launcher: result items, a deduplicated usage history with a persistent
//! encoding, generation counters for cancelling stale source queries, a
//! deterministic ranking of merged result buffers, and a navigable selection.

pub mod automation;
pub mod bookmarks;
pub mod cli;
pub mod clock;
pub mod codec;
pub mod fs_search;
pub mod history;
pub mod model;
pub mod notes;
pub mod ranking;
pub mod state;
pub mod strutil;
pub mod web_search;
