//! Content-defined chunking for a deduplicating backup store.
//!
//! A byte stream is split into chunks whose boundaries depend on the content, by one of three
//! algorithms: asymmetric extremum (AE), a Rabin rolling hash, or FastCDC's gear hash. The
//! boundaries are stated as spec functions of the bytes (`boundary::chunks`), and the
//! executable chunkers are proved to produce exactly them.
pub mod ae;
pub mod boundary;
pub mod chunker;
pub mod config;
pub mod fastcdc;
pub mod laws;
pub mod mix;
pub mod rabin;
pub mod repo_path;
pub mod text;

pub use chunker::{chunk_all, chunk_reads, ChunkStep, Chunker, ChunkerStatus, IChunker};
pub use config::{ChunkerType, ConfigError};
pub use repo_path::split_repo_path;
