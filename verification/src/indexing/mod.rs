//! and one run of the indexer.
pub mod config_check;
pub mod pipeline;
pub mod progress;
pub mod status;
pub mod writer;
