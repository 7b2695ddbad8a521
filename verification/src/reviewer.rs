//! Prompt critique: which flag supplies the prompt and the instructions,
//! where the one fixed model is fetched from, and what a model run reports.

use crate::text::concat;
use vstd::prelude::*;

verus! {

/// One input's resolved source.
#[derive(Debug, Clone, PartialEq, Eq)]
pub enum Source {
    Inline(String),
    File(String),
    Stdin,
}

/// Why the input flags were refused.
#[derive(Debug, Clone, Copy, PartialEq, Eq)]
pub enum InputError {
    NoPrompt,
    PromptTwice,
    NoInstructions,
    InstructionsTwice,
}

impl InputError {
    pub fn message(&self) -> (r: String)
        ensures
            r@ == match *self {
                InputError::NoPrompt =>
                    "no prompt given: pass it as the positional argument, with --file, or --stdin"@,
                InputError::PromptTwice =>
                    "give the prompt exactly one way: the positional argument, --file, or --stdin"@,
                InputError::NoInstructions =>
                    "no instructions given: pass them with --instructions or --instructions-file"@,
                InputError::InstructionsTwice =>
                    "give the instructions exactly one way: --instructions or --instructions-file"@,
            },
    {
        match self {
            InputError::NoPrompt => "no prompt given: pass it as the positional argument, with --file, or --stdin".to_owned(),
            InputError::PromptTwice => "give the prompt exactly one way: the positional argument, --file, or --stdin".to_owned(),
            InputError::NoInstructions => "no instructions given: pass them with --instructions or --instructions-file".to_owned(),
            InputError::InstructionsTwice => "give the instructions exactly one way: --instructions or --instructions-file".to_owned(),
        }
    }
}

pub open spec fn source_view(s: Source) -> (int, Seq<char>) {
    match s {
        Source::Inline(t) => (0, t@),
        Source::File(p) => (1, p@),
        Source::Stdin => (2, Seq::empty()),
    }
}

impl Source {
    /// The prompt under review comes from exactly one of the positional
    /// text, `--file`, or `--stdin`.
    pub fn from_prompt_flags(inline: Option<String>, file: Option<String>, stdin: bool) -> (r: Result<Source, InputError>)
        ensures
            match (inline, file, stdin) {
                (Some(t), None, false) => r matches Ok(Source::Inline(x)) && x@ == t@,
                (None, Some(p), false) => r matches Ok(Source::File(x)) && x@ == p@,
                (None, None, true) => r == Ok::<Source, InputError>(Source::Stdin),
                (None, None, false) => r == Err::<Source, InputError>(InputError::NoPrompt),
                _ => r == Err::<Source, InputError>(InputError::PromptTwice),
            },
    {
        match (inline, file, stdin) {
            (Some(text), None, false) => Ok(Source::Inline(text)),
            (None, Some(path), false) => Ok(Source::File(path)),
            (None, None, true) => Ok(Source::Stdin),
            (None, None, false) => Err(InputError::NoPrompt),
            _ => Err(InputError::PromptTwice),
        }
    }

    /// The review instructions come from exactly one of `--instructions`
    /// and `--instructions-file`; they have no stdin form.
    pub fn from_instructions_flags(inline: Option<String>, file: Option<String>) -> (r: Result<Source, InputError>)
        ensures
            match (inline, file) {
                (Some(t), None) => r matches Ok(Source::Inline(x)) && x@ == t@,
                (None, Some(p)) => r matches Ok(Source::File(x)) && x@ == p@,
                (None, None) => r == Err::<Source, InputError>(InputError::NoInstructions),
                (Some(_), Some(_)) => r == Err::<Source, InputError>(InputError::InstructionsTwice),
            },
    {
        match (inline, file) {
            (Some(text), None) => Ok(Source::Inline(text)),
            (None, Some(path)) => Ok(Source::File(path)),
            (None, None) => Err(InputError::NoInstructions),
            (Some(_), Some(_)) => Err(InputError::InstructionsTwice),
        }
    }
}

/// Hugging Face repository holding the model file.
pub const REPO: &'static str = "ggml-org/gemma-4-E4B-it-GGUF";

/// The one quantization the tool runs.
pub const GGUF_FILE: &'static str = "gemma-4-E4B-it-Q4_K_M.gguf";

/// The instruction-tuned model the file is converted from.
pub const BASE_MODEL: &'static str = "google/gemma-4-E4B-it";

/// Identity stamped into every review's metadata.
pub const IDENTITY: &'static str = "gemma-4-E4B-it (Q4_K_M, ggml-org GGUF)";

/// Environment variable that moves the model file.
pub const PATH_ENV: &'static str = "PROMPT_REVIEWER_MODEL";

pub open spec fn download_url_spec() -> Seq<char> {
    "https://huggingface.co/"@ + REPO@ + "/resolve/main/"@ + GGUF_FILE@
}

/// The direct download URL of the model file.
pub fn download_url() -> (r: String)
    ensures
        r@ == download_url_spec(),
{
    let a = concat("https://huggingface.co/", REPO);
    let b = concat(a.as_str(), "/resolve/main/");
    concat(b.as_str(), GGUF_FILE)
}

pub open spec fn download_instructions_spec(dest: Seq<char>) -> Seq<char> {
    "The model is not present. Download it once with:\n\n    review-prompt download\n\nIt downloads "@
        + GGUF_FILE@ + " ("@ + REPO@ + ", ~5.3 GB) to:\n    "@ + dest
        + "\n\nOverride the location with the "@ + PATH_ENV@ + " environment variable."@
}

/// What to tell a user whose model file at `dest` is missing.
pub fn download_instructions(dest: &str) -> (r: String)
    ensures
        r@ == download_instructions_spec(dest@),
{
    let a = concat("The model is not present. Download it once with:\n\n    review-prompt download\n\nIt downloads ", GGUF_FILE);
    let b = concat(a.as_str(), " (");
    let c = concat(b.as_str(), REPO);
    let d = concat(c.as_str(), ", ~5.3 GB) to:\n    ");
    let e = concat(d.as_str(), dest);
    let f = concat(e.as_str(), "\n\nOverride the location with the ");
    let g = concat(f.as_str(), PATH_ENV);
    concat(g.as_str(), " environment variable.")
}

/// One model run: the review text and what the run measured.
#[derive(Debug, Clone)]
pub struct Review {
    pub text: String,
    pub prompt_tokens: usize,
    pub completion_tokens: usize,
    pub duration_ms: u128,
    pub context_size: u32,
    pub prompt_truncated: bool,
}

/// How many prompt tokens fit: the context window less the completion's
/// reserve (`max_output_tokens`, at least one), and never fewer than one.
pub open spec fn prompt_budget(context_size: u32, max_output_tokens: i32) -> int {
    let reserve: int = if max_output_tokens >= 1 { max_output_tokens as int } else { 1 };
    let room: int = context_size as int - reserve;
    if room >= 1 { room } else { 1 }
}

/// Fit the prompt's tokens to the context window, leaving room for the
/// completion: when there are too many, the oldest are dropped and the tail
/// (which holds the subject and the instructions) is kept. The flag says
/// whether anything was dropped.
pub fn fit_prompt(tokens: &Vec<i32>, context_size: u32, max_output_tokens: i32) -> (r: (Vec<i32>, bool))
    ensures
        r.1 == (tokens@.len() > prompt_budget(context_size, max_output_tokens)),
        r.0@ == if r.1 {
            tokens@.skip(tokens@.len() - prompt_budget(context_size, max_output_tokens))
        } else {
            tokens@
        },
{
    let reserve: u32 = if max_output_tokens >= 1 { max_output_tokens as u32 } else { 1 };
    let room: u32 = if context_size > reserve { context_size - reserve } else { 0 };
    let max_prompt: usize = if room >= 1 { room as usize } else { 1 };
    let truncated = tokens.len() > max_prompt;
    let start: usize = if truncated { tokens.len() - max_prompt } else { 0 };
    let mut out: Vec<i32> = Vec::new();
    let mut i: usize = start;
    while i < tokens.len()
        invariant
            start <= i <= tokens@.len(),
            out@ == tokens@.subrange(start as int, i as int),
        decreases tokens@.len() - i,
    {
        out.push(tokens[i]);
        assert(out@ =~= tokens@.subrange(start as int, i + 1));
        i += 1;
    }
    assert(out@ =~= tokens@.skip(start as int));
    (out, truncated)
}

} // verus!
