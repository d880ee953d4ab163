//! Sections of the `specmut.toml` configuration file that carry no
//! floating-point parameters.
use vstd::prelude::*;

verus! {

/// `[project]` section.
#[derive(Debug, Clone)]
pub struct ProjectConfig {
    /// Display name.
    pub name: String,
    /// Path to the input spec file.
    pub spec_file: String,
    /// Implementation model files.
    pub implementations: Vec<String>,
}

/// `[output]` section.
#[derive(Debug, Clone)]
pub struct OutputConfig {
    /// `"text"` or `"json"`.
    pub report_format: String,
    /// Directory for additional report artifacts.
    pub output_dir: Option<String>,
}

/// Default maximum carrier size.
pub fn default_model_bound() -> (r: usize)
    ensures
        r == 2,
{
    2
}

/// Default maximum quantifier rank.
pub fn default_quantifier_rank() -> (r: usize)
    ensures
        r == 2,
{
    2
}

/// Default random seed.
pub fn default_seed() -> (r: u64)
    ensures
        r == 42,
{
    42
}

/// Default report format.
pub fn default_format() -> (r: String)
    ensures
        r@ == "text"@,
{
    String::from_str("text")
}

impl Default for OutputConfig {
    /// Text reports, no artifact directory.
    fn default() -> (r: Self)
        ensures
            r.report_format@ == "text"@,
            r.output_dir is None,
    {
        OutputConfig { report_format: default_format(), output_dir: None }
    }
}

} // verus!
