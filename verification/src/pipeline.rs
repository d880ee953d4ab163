//! Input kinds and SMT settings of the analysis pipeline.
use vstd::prelude::*;

verus! {

/// SMT back-end settings.
#[derive(Debug, Clone)]
pub struct SmtParams {
    /// Per-query timeout in milliseconds.
    pub timeout_ms: u64,
    /// Optional SMT-LIB logic (e.g. `"QF_UF"`).
    pub logic: Option<String>,
}

/// The extension of the path written `p`, as `std::path::Path::extension`
/// finds it: the part of the last component after its last dot, if that
/// component has a dot that does not start it.
pub uninterp spec fn path_extension(p: Seq<char>) -> Option<Seq<char>>;

/// `std::path::Path::extension` of the path written `p`, as text.  The
/// result is the named [`path_extension`] of `p`.
#[verifier::external_body]
fn extension_of(p: &str) -> (r: Option<String>)
    ensures
        match r {
            Some(e) => path_extension(p@) == Some(e@),
            None => path_extension(p@) is None,
        },
{
    std::path::Path::new(p).extension().and_then(|s| s.to_str()).map(|s| s.to_string())
}

/// The extension is one of the two spellings given.
pub open spec fn extension_is(p: Seq<char>, a: Seq<char>, b: Seq<char>) -> bool {
    path_extension(p) == Some(a) || path_extension(p) == Some(b)
}

/// Whether `path` names a Lean file (extension `lean` or `Lean`).
pub fn is_lean_path(path: &str) -> (r: bool)
    ensures
        r == extension_is(path@, "lean"@, "Lean"@),
{
    match extension_of(path) {
        Some(e) => crate::names::str_eq(e.as_str(), "lean") || crate::names::str_eq(e.as_str(), "Lean"),
        None => false,
    }
}

/// Whether `path` names a Dafny file (extension `dfy` or `Dfy`).
pub fn is_dafny_path(path: &str) -> (r: bool)
    ensures
        r == extension_is(path@, "dfy"@, "Dfy"@),
{
    match extension_of(path) {
        Some(e) => crate::names::str_eq(e.as_str(), "dfy") || crate::names::str_eq(e.as_str(), "Dfy"),
        None => false,
    }
}

} // verus!
