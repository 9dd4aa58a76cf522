//! indexify — an n-gram index for fast full-text code search.
//!
//! The verified library holds what the index stores for a file, how a query is
//! turned into candidate-filter terms, and how candidate files are checked line
//! by line.
pub mod builder;
pub mod text;
pub mod ngram;
pub mod searcher;
pub mod lines;
pub mod pattern;
pub mod encoding;
pub mod laws;
pub mod paths;
pub mod protocol;
pub mod watcher;
