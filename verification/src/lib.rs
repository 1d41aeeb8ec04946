//! Directory-of-organizations core: an in-memory inverted-index search
//! structure with incremental maintenance, a two-phase edit workflow
//! (draft "stash", then commit or discard), a replay-based persistence
//! interface, and a capability-token codec that grants scoped editing
//! rights for a single entry id.

pub mod config;
pub mod entry;
pub mod index;
pub mod key;
pub mod segment;
pub mod store;
pub mod text;
