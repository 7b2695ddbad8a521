//! The output lifecycle of value-producing commands: the `--filter` /
//! `--json` check that runs before a command, the sink a command emits
//! through, and the jq program that keeps the `context` slot beside
//! whatever a filter selects.

use crate::text::concat;
use vstd::prelude::*;

verus! {

/// Why a `--filter` / `--json` combination is refused.
#[derive(Debug, Clone, Copy, PartialEq, Eq)]
pub enum GuardError {
    FilterNeedsJson,
}

impl GuardError {
    pub fn message(&self) -> (r: String)
        ensures
            r@ == "--filter requires --json"@,
    {
        "--filter requires --json".to_owned()
    }
}

/// Validate the `--filter` / `--json` combination before the command runs:
/// `--filter` works on JSON, so it needs `--json`.
pub fn guard(as_json: bool, filter: Option<&str>) -> (r: Result<(), GuardError>)
    ensures
        r == (if filter is Some && !as_json { Err(GuardError::FilterNeedsJson) } else { Ok(()) }),
{
    if filter.is_some() && !as_json {
        Err(GuardError::FilterNeedsJson)
    } else {
        Ok(())
    }
}

/// The jq program that runs `program` and keeps the document's `context`
/// beside its results: one output is unwrapped, several stay a list.
pub open spec fn keeping_context_spec(program: Seq<char>) -> Seq<char> {
    "{\"context\": .context, \"results\": (["@ + program
        + "] | if length == 1 then .[0] else . end)}"@
}

pub fn keeping_context(program: &str) -> (r: String)
    ensures
        r@ == keeping_context_spec(program@),
{
    let head = concat("{\"context\": .context, \"results\": ([", program);
    concat(head.as_str(), "] | if length == 1 then .[0] else . end)}")
}

/// Where a command sends its document: as JSON or not, through an optional
/// jq filter.
pub struct Sink<'a> {
    pub as_json: bool,
    pub filter: Option<&'a str>,
}

/// Run a command that emits its own document: check the flags first, so a
/// misuse fails before the command does any work, then hand the command its
/// sink. A refused combination answers with the guard's message.
pub fn run_streamed<'a, F: FnOnce(&Sink<'a>) -> Result<(), String>>(
    as_json: bool,
    filter: Option<&'a str>,
    command: F,
) -> (r: Result<(), String>)
    requires
        command.requires((&(Sink { as_json, filter }),)),
    ensures
        filter is Some && !as_json ==> r is Err && r->Err_0@ == "--filter requires --json"@,
        !(filter is Some && !as_json) ==> command.ensures((&(Sink { as_json, filter }),), r),
{
    match guard(as_json, filter) {
        Err(e) => Err(e.message()),
        Ok(()) => {
            let sink = Sink { as_json, filter };
            command(&sink)
        },
    }
}

} // verus!
