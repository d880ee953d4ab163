//! Settings of the Lean exporter and the errors of the Lean → IR pipeline.
//!
//! Running the exporter (finding the `lean` binary, detecting a Lake
//! project, spawning the process) is input and output, and lives with the
//! command-line program; what is here is the data it works with and the
//! one piece of logic on the exporter's output, finding where its JSON
//! starts.
use vstd::prelude::*;
use std::path::PathBuf;
use crate::names::first_index_of;
use crate::translator::TranslationError;

verus! {

/// The standard library's owned path type.
#[verifier::external_type_specification]
#[verifier::external_body]
pub struct ExPathBuf(std::path::PathBuf);

/// The standard library's I/O error.
#[verifier::external_type_specification]
#[verifier::external_body]
pub struct ExIoError(std::io::Error);

/// Default timeout for the Lean exporter, in seconds.
pub const DEFAULT_TIMEOUT_SECS: u64 = 60;

/// How to run the `lean` exporter.
#[derive(Debug)]
pub struct LeanRunner {
    /// Path to the `lean` binary; `"lean"` by default, looked up on `PATH`.
    pub lean_path: PathBuf,
    /// Wall-clock timeout of one run, in seconds.
    pub timeout_secs: u64,
}

/// The text a `PathBuf` holds.
pub uninterp spec fn path_text(p: PathBuf) -> Seq<char>;

/// `std::path::PathBuf::from` on a string slice: the path holding the
/// text `s`.
#[verifier::external_body]
fn path_from(s: &str) -> (r: PathBuf)
    ensures
        path_text(r) == s@,
{
    PathBuf::from(s)
}

impl LeanRunner {
    /// A runner for an explicit binary and timeout.
    pub fn new(lean_path: PathBuf, timeout_secs: u64) -> (r: Self)
        ensures
            r.lean_path == lean_path,
            r.timeout_secs == timeout_secs,
    {
        LeanRunner { lean_path, timeout_secs }
    }

    /// The default runner: `lean` from `PATH`, [`DEFAULT_TIMEOUT_SECS`].
    pub fn default_runner() -> (r: Self)
        ensures
            path_text(r.lean_path) == "lean"@,
            r.timeout_secs == DEFAULT_TIMEOUT_SECS,
    {
        LeanRunner { lean_path: path_from("lean"), timeout_secs: DEFAULT_TIMEOUT_SECS }
    }
}

impl Default for LeanRunner {
    fn default() -> (r: Self)
        ensures
            path_text(r.lean_path) == "lean"@,
            r.timeout_secs == DEFAULT_TIMEOUT_SECS,
    {
        LeanRunner::default_runner()
    }
}

/// Errors of the Lean → IR pipeline.
#[derive(Debug)]
pub enum LeanPipelineError {
    /// The `lean` binary could not be found.
    LeanNotFound {
        /// The path that was searched.
        path: PathBuf,
    },
    /// A Lake project was detected but `lake` is not on `PATH`.
    LakeNotFound {
        /// The directory holding the lakefile.
        project_dir: PathBuf,
    },
    /// Lean exited with a non-zero status.
    ExporterFailed {
        /// The exit code.
        code: i32,
        /// The captured standard error.
        stderr: String,
    },
    /// The exporter ran past its timeout.
    ExporterTimeout {
        /// The timeout, in seconds.
        timeout_secs: u64,
    },
    /// The exporter wrote nothing usable on standard output.
    EmptyOutput,
    /// Standard output could not be parsed as JSON.
    JsonParse {
        /// Diagnostic.
        message: String,
    },
    /// The translation rejected the IR.
    Translation(TranslationError),
    /// File or process I/O failed.
    Io(std::io::Error),
}

/// `s` from its first `{` on, if it has one: the exporter's JSON, past
/// whatever Lean printed before it.
pub fn find_json_start(s: &str) -> (r: Option<&str>)
    ensures
        match first_index_of(s@, '{') {
            Some(i) => r matches Some(t) && t@ == s@.skip(i),
            None => r is None,
        },
{
    let n = crate::names::char_len(s);
    let mut i: usize = 0;
    while i < n
        invariant
            n == s@.len(),
            i <= n,
            forall|j: int| 0 <= j < i ==> s@[j] != '{',
        decreases n - i,
    {
        if crate::names::nth_char(s, i) == Some('{') {
            proof {
                let w = choose|w: int| 0 <= w < s@.len() && s@[w] == '{' && forall|j: int| 0 <= j < w ==> s@[j] != '{';
                if w < i {
                } else if w > i as int {
                    assert(s@[i as int] != '{');
                }
                assert(s@.subrange(i as int, n as int) =~= s@.skip(i as int));
            }
            return Some(s.substring_char(i, n));
        }
        i = i + 1;
    }
    None
}

} // verus!
