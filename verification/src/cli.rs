use vstd::prelude::*;

verus! {

/// Data formats accepted as input.
#[derive(Copy, Clone, Debug, PartialEq, Eq, Structural)]
pub enum Format {
    Json,
    Yaml,
    Toml,
    Xml,
    Properties,
}

/// Target output languages/modes for code generation.
#[derive(Copy, Clone, Debug, PartialEq, Eq, Structural)]
pub enum TargetMode {
    Rust,
    Typescript,
    TypescriptTypeAlias,
    KotlinJackson,
    KotlinKotlinx,
    JsonSchema,
    Shape,
}

/// The settings the command line gives.
pub struct Cli {
    /// One or more file paths to read and merge.
    pub sources: Vec<String>,
    /// Remote URLs to fetch data from.
    pub url: Vec<String>,
    /// A forced input format, in place of detection.
    pub format: Option<Format>,
    /// Name for the root generated type.
    pub name: String,
    /// Target language or output mode.
    pub lang: TargetMode,
}

} // verus!
