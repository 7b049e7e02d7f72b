//! Duplicate and near-duplicate file detection over plain values.
//!
//! The library holds the decisions of a duplicate finder: how a directory
//! tree is walked, which files a filter keeps, how file content is turned
//! into a digest, how files are grouped by digest, and how two members of a
//! group are compared. It never touches the file system: callers hand it
//! what they listed and read.
//!
//! The stages, in the order of a run:
//!
//! - `scanner`: the walk over the tree, one directory listing at a time;
//! - `filter`: size bounds, path pattern and extensions;
//! - `hashing`: SHA-256, BLAKE3 and XXH64 digests as lowercase hexadecimal;
//! - `aggregator`: files grouped by digest, hashed across a pool of workers;
//! - `pipeline`: the stages in a row, and what holds of the result;
//! - `analysis`, `content_similarity`, `image_similarity`: which members of a
//!   group are compared, and their scores;
//! - `report`, `quarantine`: what is handed on at the end.

pub mod aggregator;
pub mod analysis;
pub mod content_similarity;
pub mod file;
pub mod filter;
pub mod hashing;
pub mod image_similarity;
pub mod path;
pub mod pipeline;
pub mod quarantine;
pub mod report;
pub mod scanner;
pub mod sequences;
