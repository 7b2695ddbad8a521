//! Plain records the per-file facts are made of.

use vstd::prelude::*;

verus! {

/// One function's complexity facts.
#[derive(Debug, Clone)]
pub struct FunctionFact {
    pub name: String,
    pub start_line: i64,
    pub nloc: i64,
    pub cyclomatic_complexity: i64,
}

/// One search hit: the file, its line, and the matched text.
#[derive(Debug, Clone)]
pub struct Match {
    pub file: String,
    pub line: i64,
    pub snippet: String,
}

/// Everything known of one file: its complexity, its git lifecycle, and
/// what was extracted from it.
#[derive(Debug)]
pub struct FileFacts {
    pub path: String,
    pub language: Option<String>,
    pub loc: i64,
    pub function_count: i64,
    pub cyclomatic_complexity_total: i64,
    pub cyclomatic_complexity_max: i64,
    pub rank: String,
    pub functions: Vec<FunctionFact>,
    pub last_modified: Option<String>,
    pub last_author: Option<String>,
    pub commits_30d: i64,
    pub first_seen: Option<String>,
    pub commit_count: i64,
    pub commit_count_is_floor: bool,
    pub rename_from: Option<String>,
    pub working_state: Option<String>,
    pub present_in: Vec<String>,
    pub last_subject: Option<String>,
    pub top_author: Option<String>,
    pub co_changed: Vec<(String, i64)>,
    pub mtime_ns: i64,
    pub size_bytes: i64,
    pub extraction: Option<crate::extraction::ExtractionResult>,
}

} // verus!
