//! The options of a run: what the command line sets.
use vstd::prelude::*;

verus! {

/// The options of a run.
#[derive(Debug)]
pub struct Cli {
    /// Selector expression (e.g., foo.bar, items[0].name, [*].id)
    pub selector: Option<String>,
    /// Input format override
    pub input: InputFormat,
    /// Output format override
    pub output: OutputFormat,
    /// Read from file instead of stdin
    pub file: Option<String>,
    /// Output result as JSON
    pub json: bool,
    /// Output without trailing newline
    pub raw: bool,
    /// Only output first result
    pub first: bool,
    /// Output array elements one per line
    pub lines: bool,
    /// Default value if selector doesn't match
    pub default: Option<String>,
    /// Suppress error messages
    pub quiet: bool,
    /// Check if selector matches (exit code only: 0=found, 1=not found)
    pub exists: bool,
    /// Output count of matches
    pub count: bool,
    /// Treat the input as one JSON value per line
    pub stream: bool,
}

/// The input formats.
#[derive(Clone, Copy, Debug, PartialEq, Eq, Structural)]
pub enum InputFormat {
    Auto,
    Json,
    Yaml,
    Toml,
    Env,
    Headers,
    Logfmt,
    Csv,
    Text,
}

/// The output formats.
#[derive(Clone, Copy, Debug, PartialEq, Eq, Structural)]
pub enum OutputFormat {
    Auto,
    Json,
    Yaml,
    Toml,
}

} // verus!
