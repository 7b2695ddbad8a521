use vstd::prelude::*;

verus! {

/// Name of the one complexity backend; cache identity is keyed by it.
pub fn active_ccn_backend() -> (r: &'static str)
    ensures
        r@ == "ast"@,
{
    proof { reveal_strlit("ast"); }
    "ast"
}

} // verus!
pub mod text;
pub mod civil;
pub mod jsonfmt;
pub mod paths;
pub mod keyed;
pub mod extraction;
pub mod architecture;
pub mod graph_build;
pub mod git_status;
pub mod labels;
pub mod blame;
pub mod lang;
pub mod output;
pub mod reviewer;
pub mod activity;
pub mod ordered;
pub mod session;
pub mod drift;
pub mod repo_files;
pub mod cache;
pub mod facts;
pub mod history;
pub mod glob;
pub mod digest;
pub mod passive;
pub mod listing;
pub mod changes;
pub mod snippets;
pub mod primer;
pub mod ccn;
pub mod captures;
pub mod pattern;
pub mod relations;
pub mod reach;
pub mod upstream;
pub mod layout;
pub mod directories;
pub mod signatures;
pub mod structure;
pub mod presence;
pub mod gitgrep;
pub mod dirlist;
pub mod callers;
