use vstd::prelude::*;

verus! {

/// `serde_json`'s error type, carried through as it is.
#[verifier::external_type_specification]
#[verifier::external_body]
pub struct ExJsonError(serde_json::Error);

/// `std::io::Error`, carried through as it is.
#[verifier::external_type_specification]
#[verifier::external_body]
pub struct ExIoError(std::io::Error);

/// `reqwest`'s error type, carried through as it is.
#[verifier::external_type_specification]
#[verifier::external_body]
pub struct ExNetworkError(reqwest::Error);

/// Errors that can occur during the pipeline.
#[derive(Debug)]
pub enum CliError {
    /// Filesystem or stdin read failure.
    Io(std::io::Error),
    /// Input could not be parsed as the expected format.
    Parse { format: &'static str, msg: String },
    /// HTTP request to a remote URL failed.
    Network(reqwest::Error),
    /// JSON deserialization error, with its message.
    Json(serde_json::Error, String),
    /// Code generation failed.
    Codegen(String),
}

/// What a failure amounts to: the I/O and network errors by their kind
/// alone, the others by their messages.
pub enum Failure {
    Io,
    Parse(Seq<char>, Seq<char>),
    Network,
    Json(Seq<char>),
    Codegen(Seq<char>),
}

impl View for CliError {
    type V = Failure;

    open spec fn view(&self) -> Failure {
        match self {
            CliError::Io(_) => Failure::Io,
            CliError::Parse { format, msg } => Failure::Parse(format@, msg@),
            CliError::Network(_) => Failure::Network,
            CliError::Json(_, m) => Failure::Json(m@),
            CliError::Codegen(m) => Failure::Codegen(m@),
        }
    }
}

} // verus!
