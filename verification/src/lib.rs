//! The core of a local file search tool: what a file's record says, which
//! text of a file is searchable, how an index is kept in step with the disk,
//! and what a run reports while it works.
pub mod batch;
pub mod bytes;
pub mod config;
pub mod counting;
pub mod extract;
pub mod fts;
pub mod incremental;
pub mod indexing;
pub mod keyed;
pub mod live;
pub mod log;
pub mod parts;
pub mod paths;
pub mod records;
pub mod text;
