use vstd::prelude::*;
use crate::cli::{Cli, TargetMode};
use crate::error::{CliError, Failure};
use crate::json::{items_model, Json, JsonValue};
use crate::merge::{merge_all, merge_samples};
use crate::serialize::{json_text_of, sample_text};

verus! {

/// What `json_typegen_shared::codegen` generates for a type name, a JSON
/// sample text and an output mode (the other options at their defaults),
/// or its error message.
pub uninterp spec fn typegen_output(name: Seq<char>, sample: Seq<char>, mode: TargetMode) -> Result<
    Seq<char>,
    Seq<char>,
>;

/// Whether the code generator reads `sample` as a JSON sample in itself; it
/// reads any other text as a file path or URL to fetch one from.
pub open spec fn is_inline_sample(sample: Seq<char>) -> bool {
    sample.len() > 0 && (sample[0] == '{' || sample[0] == '[')
}

/// `json_typegen_shared::codegen` with default options and the output mode
/// that `mode` stands for; the error by its message. Where the sample text
/// is an object or array, the outcome depends on the arguments alone and is
/// named `typegen_output`; for other text the generator looks for a file or
/// URL, and nothing is stated of the outcome.
#[verifier::external_body]
fn typegen_codegen(name: &str, sample: &str, mode: TargetMode) -> (r: Result<String, String>)
    ensures
        is_inline_sample(sample@) ==> match r {
            Ok(code) => typegen_output(name@, sample@, mode) == Ok::<Seq<char>, Seq<char>>(code@),
            Err(msg) => typegen_output(name@, sample@, mode) == Err::<Seq<char>, Seq<char>>(msg@),
        },
{
    let mut options = json_typegen_shared::Options::default();
    options.output_mode = match mode {
        TargetMode::Rust => json_typegen_shared::OutputMode::Rust,
        TargetMode::Typescript => json_typegen_shared::OutputMode::Typescript,
        TargetMode::TypescriptTypeAlias => json_typegen_shared::OutputMode::TypescriptTypeAlias,
        TargetMode::KotlinJackson => json_typegen_shared::OutputMode::KotlinJackson,
        TargetMode::KotlinKotlinx => json_typegen_shared::OutputMode::KotlinKotlinx,
        TargetMode::JsonSchema => json_typegen_shared::OutputMode::JsonSchema,
        TargetMode::Shape => json_typegen_shared::OutputMode::Shape,
    };
    json_typegen_shared::codegen(name, sample, options).map_err(|e| e.to_string())
}

/// The outcome of generation once the generator has answered: its error
/// message becomes a code generation failure.
pub fn generation_result(answer: Result<String, String>) -> (r: Result<String, CliError>)
    ensures
        match answer {
            Ok(code) => r matches Ok(c) && c@ == code@,
            Err(msg) => r matches Err(e) && e@ == Failure::Codegen(msg@),
        },
{
    match answer {
        Ok(code) => Ok(code),
        Err(msg) => Err(CliError::Codegen(msg)),
    }
}

/// A text result taken by its model.
pub open spec fn text_outcome(r: Result<String, CliError>) -> Result<Seq<char>, Failure> {
    match r {
        Ok(s) => Ok(s@),
        Err(e) => Err(e@),
    }
}

/// Whether `o` is an outcome of generating code named `name` from the
/// sample `j` for `mode`: the sample goes to the generator as its compact
/// JSON text; a sample that has no such text is a JSON failure with the
/// serializer's message; for an object or an array the outcome is the
/// generator's for exactly that text; any other failure is a code
/// generation failure.
pub open spec fn generation_outcome(
    name: Seq<char>,
    j: Json,
    mode: TargetMode,
    o: Result<Seq<char>, Failure>,
) -> bool {
    match json_text_of(j) {
        Err(m) => o == Err::<Seq<char>, Failure>(Failure::Json(m)),
        Ok(t) => {
            &&& (j is Object || j is Array) ==> o == match typegen_output(name, t, mode) {
                Ok(code) => Ok(code),
                Err(msg) => Err(Failure::Codegen(msg)),
            }
            &&& o matches Err(f) ==> f is Codegen
        },
    }
}

/// Generates code for the type named `name` from the sample `json`, in the
/// target language `mode`.
pub fn generate(name: &str, json: &JsonValue, mode: TargetMode) -> (r: Result<String, CliError>)
    ensures
        generation_outcome(name@, json@, mode, text_outcome(r)),
{
    let json_string = match sample_text(json) {
        Ok(s) => s,
        Err(e) => return Err(e),
    };
    let answer = typegen_codegen(name, json_string.as_str(), mode);
    generation_result(answer)
}

/// What the program prints for the samples read: nothing when there are
/// none, else the code generated from the samples merged into one.
pub fn code_for_samples(cli: &Cli, samples: Vec<JsonValue>) -> (r: Result<Option<String>, CliError>)
    ensures
        samples@.len() == 0 ==> r matches Ok(None),
        samples@.len() > 0 ==> match r {
            Ok(Some(code)) => generation_outcome(
                cli.name@,
                merge_all(items_model(samples@)),
                cli.lang,
                Ok(code@),
            ),
            Ok(None) => false,
            Err(e) => generation_outcome(
                cli.name@,
                merge_all(items_model(samples@)),
                cli.lang,
                Err(e@),
            ),
        },
{
    if samples.len() == 0 {
        return Ok(None);
    }
    let merged = merge_samples(samples);
    match generate(cli.name.as_str(), &merged, cli.lang) {
        Ok(code) => Ok(Some(code)),
        Err(e) => Err(e),
    }
}

} // verus!
