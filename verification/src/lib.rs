//! Structural diff of JSON-like documents.
//!
//! A document is flattened into a mapping from structural paths to scalar
//! leaves; two flattened documents are merged by path and every path whose
//! two sides differ is reported, unless an ignore rule covers it.

pub mod command;
pub mod diff;
pub mod jsonpath;
pub mod tree;
