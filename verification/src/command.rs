//! The caller-facing description of one comparison run.

use crate::jsonpath::JsonPath;
use vstd::prelude::*;

verus! {

/// Where a document comes from: a file on disk, or inline text. Reading
/// and parsing the source is the calling layer's business; the engine only
/// ever sees the parsed tree.
#[derive(Debug, Clone)]
pub enum JsonSrc {
    File(String),
    Json(String),
}

/// One comparison run: the two document sources, the ignore rules, and
/// the flags that pick the comparison mode and the computation strategy.
#[derive(Debug, Clone)]
pub struct DiffCommand {
    /// Key-presence mode: report a path exactly when it exists on one side
    /// only, ignoring value content. Off: full-value mode.
    pub key_only: bool,
    /// Presentation flag for the calling layer; the engine ignores it.
    pub replace_backslash: bool,
    /// Flatten the two documents on two concurrent tasks. The flag picks a
    /// computation strategy only; the result never depends on it.
    pub threading: bool,
    /// Paths covered by any of these rules are left out of the report.
    pub ignore_case: Vec<JsonPath>,
    /// The left document.
    pub json1: JsonSrc,
    /// The right document.
    pub json2: JsonSrc,
}

} // verus!
