//! An ordered parallel ingestion pipeline: it turns a list of files into one
//! linear textual digest, classifying each file (size ceiling, binary sniff),
//! decorating its content, counting tokens, and restoring the original input
//! order from out-of-order parallel results.
//!
//! The modules here hold the pipeline's logic; reading files, spawning worker
//! threads and writing the digest to its sink are left to the surrounding
//! program, which feeds plain values in and takes plain values back out.

pub mod classify;
pub mod decorator;
pub mod reorder;
pub mod text;
pub mod tokenizer;
pub mod traversal;
pub mod worker;
