//! Incremental semantic index over a file tree: the scan, chunk, embed and
//! persist stages, the ordered store they maintain, and its query surface.

pub mod chunking;
pub mod context;
pub mod embed;
pub mod embedding_index;
pub mod indexing;
pub mod instance;
pub mod keys;
pub mod laws;
pub mod persist;
pub mod query;
pub mod scan;
pub mod semantic_search_tool;
pub mod store;
pub mod worktree;
pub mod writing_app_settings;
