//! The settings that the rest of the crate reads.
use vstd::prelude::*;

verus! {

/// The smallest checkpoint threshold worth its locks, in bytes.
pub const MINIMUM_WAL_SIZE: u64 = 16777216;

/// Settings of the work on one file and of the writes to the index.
#[derive(Debug, Clone)]
pub struct ProcessingConfig {
    /// Largest text kept for one file, in bytes.
    pub maximum_text_size: usize,
    /// Largest file whose content is read, in bytes.
    pub maximum_text_file_size: u64,
    /// How much of a file's head goes into its hash, in bytes.
    pub hash_length: usize,
    /// Rows per write transaction.
    pub batch_size: usize,
    /// Rows per update transaction.
    pub fts_update_batch_size: usize,
    /// Keep a compressed copy of each text for snippets.
    pub store_text_for_snippets: bool,
    /// Tokenizer of the full-text table.
    pub tokenize: String,
    /// Writer time one root's turn may take, in milliseconds.
    pub writer_turn_slice_ms: u64,
    /// Size of the write-ahead log that forces a checkpoint; 0 for none.
    pub maximum_wal_size: u64,
}

/// Settings of what is indexed.
#[derive(Debug, Clone)]
pub struct IndexingConfig {
    pub include_hidden: bool,
    pub follow_symlinks: bool,
    pub ignore_patterns: Vec<String>,
    /// Extensions whose content is extracted; all where there are none.
    pub content_extensions: Vec<String>,
    /// Worker counts, by root as the user typed it.
    pub root_workers: Vec<(String, usize)>,
}

#[derive(Debug, Clone)]
pub struct PathsConfig {
    /// The roots to index, as the user typed them.
    pub indexing_paths: Vec<String>,
    pub database_path: String,
}

#[derive(Debug, Clone)]
pub struct Config {
    pub processing: ProcessingConfig,
    pub indexing: IndexingConfig,
    pub paths: PathsConfig,
}

} // verus!
