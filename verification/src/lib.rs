//! A bounded, duplicate-free list of recently used URLs, kept in step with
//! the array of tables that persists it in a TOML document.
//!
//! The list runs from the least recently used entry to the most recently
//! used one. [`RecentsWriter`] is the only way to change it: every change is
//! made to the document and to the list together, so the two never disagree
//! when a call returns.

pub mod document;
pub mod entry;
pub mod holder;
pub mod order;
pub mod write;

pub use entry::{Recent, Recents};
pub use holder::RecentsHolder;
pub use write::RecentsWriter;
