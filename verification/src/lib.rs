//! Generates types from data samples: samples in several formats are read,
//! merged into one shape, and handed to a code generator.

pub mod cli;
pub mod codegen;
pub mod error;
pub mod format;
pub mod input;
pub mod json;
pub mod merge;
pub mod parsers;
pub mod scalar;
pub mod serialize;
pub mod text;
pub mod xml;

pub use cli::{Cli, Format, TargetMode};
pub use codegen::{code_for_samples, generate};
pub use error::CliError;
pub use format::{detect_format, parse_all, parse_to_json};
pub use input::{add_piped_samples, add_samples, file_format, source_plan, stream_format, SourcePlan};
pub use json::{json_eq, JsonValue};
pub use merge::{merge, merge_samples};
pub use serialize::sample_text;
pub use xml::clean_xml_value;
