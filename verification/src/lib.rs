//! An incremental syntax-highlight cache and diff-decision engine.
//!
//! The crate remembers the most recent highlighting outcome per language,
//! measures how much a text buffer changed with a cheap positional diff, and
//! decides for each request whether the cached outcome can be reused as is or
//! the external highlighter must run again.  The grammar-driven highlighting
//! itself is delegated to outside crates; everything around it — the diff
//! engine, the caches, the staleness and versioning rules, and the
//! reuse/recompute decision — is verified.

pub mod cache;
pub mod diff;
pub mod highlighting;
pub mod incremental;
pub mod theme;
pub mod types;
