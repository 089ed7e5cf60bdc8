use vstd::prelude::*;
use crate::cli::{Cli, Format};
use crate::error::CliError;
use crate::error::Failure;
use crate::format::{
    detect_format, format_for_extension, outcomes, parse_all, parse_all_outcome, path_extension,
};
use crate::json::Json;
use crate::json::{items_model, JsonValue};
use crate::text::chars_of;

verus! {

/// Which sources are read, in the order URLs, files, standard input.
#[derive(Copy, Clone, Debug, PartialEq, Eq, Structural)]
pub struct SourcePlan {
    /// Each of the remote URLs, first.
    pub urls: bool,
    /// Each of the local files, next.
    pub files: bool,
    /// Standard input, last.
    pub stdin: bool,
}

/// The sources of the samples: every remote URL given, then every local
/// file given (any mix of the two), and standard input when neither is
/// given.
pub fn source_plan(cli: &Cli) -> (r: SourcePlan)
    ensures
        r.urls == (cli.url@.len() > 0),
        r.files == (cli.sources@.len() > 0),
        r.stdin == (cli.url@.len() == 0 && cli.sources@.len() == 0),
{
    let urls = !cli.url.is_empty();
    let files = !cli.sources.is_empty();
    SourcePlan { urls, files, stdin: !urls && !files }
}

/// The format of text fetched from a URL or piped in: the forced format,
/// else JSON.
pub fn stream_format(cli: &Cli) -> (r: Format)
    ensures
        r == stream_format_of(*cli),
        cli.format matches Some(f) ==> r == f,
        cli.format is None ==> r == Format::Json,
{
    match cli.format {
        Some(f) => f,
        None => Format::Json,
    }
}

/// The format of a local file: the forced format, else the one its
/// extension names.
pub fn file_format(cli: &Cli, path: &str) -> (r: Format)
    ensures
        r == match cli.format {
            Some(f) => f,
            None => format_for_extension(path_extension(path@)),
        },
{
    match cli.format {
        Some(f) => f,
        None => detect_format(path),
    }
}

/// The characters `char::is_whitespace` accepts (Unicode `White_Space`).
pub open spec fn is_white(c: char) -> bool {
    let n = c as int;
    (0x9 <= n <= 0xd) || n == 0x20 || n == 0x85 || n == 0xa0 || n == 0x1680 || (0x2000 <= n
        <= 0x200a) || n == 0x2028 || n == 0x2029 || n == 0x202f || n == 0x205f || n == 0x3000
}

/// Whether a text holds nothing but whitespace (`str::trim` leaves it empty).
pub open spec fn is_blank(s: Seq<char>) -> bool {
    forall|i: int| 0 <= i < s.len() ==> is_white(#[trigger] s[i])
}

fn white(c: char) -> (r: bool)
    ensures
        r == is_white(c),
{
    let n = c as u32;
    (0x9 <= n && n <= 0xd) || n == 0x20 || n == 0x85 || n == 0xa0 || n == 0x1680 || (0x2000 <= n
        && n <= 0x200a) || n == 0x2028 || n == 0x2029 || n == 0x202f || n == 0x205f || n == 0x3000
}

/// Whether `s` is blank.
pub fn blank(s: &str) -> (r: bool)
    ensures
        r == is_blank(s@),
{
    let cs = chars_of(s);
    let mut i: usize = 0;
    while i < cs.len()
        invariant
            0 <= i <= cs.len(),
            cs@ == s@,
            forall|j: int| 0 <= j < i ==> is_white(#[trigger] cs@[j]),
        decreases cs.len() - i,
    {
        if !white(cs[i]) {
            return false;
        }
        i = i + 1;
    }
    true
}

/// Whether `after` is `before` with the samples read from `text` appended
/// (on success), or `before` unchanged with the reader's failure `r`.
pub open spec fn samples_added(
    before: Seq<JsonValue>,
    after: Seq<JsonValue>,
    text: Seq<char>,
    format: Format,
    r: Result<(), Failure>,
) -> bool {
    match r {
        Ok(_) => exists|read: Seq<Json>|
            #![trigger parse_all_outcome(text, format, Ok::<Seq<Json>, Failure>(read))]
            parse_all_outcome(text, format, Ok(read)) && items_model(after) == items_model(before)
                + read,
        Err(f) => parse_all_outcome(text, format, Err(f)) && after == before,
    }
}

/// A unit result taken by its failure.
pub open spec fn unit_outcome(r: Result<(), CliError>) -> Result<(), Failure> {
    match r {
        Ok(_) => Ok(()),
        Err(e) => Err(e@),
    }
}

/// The format of piped or fetched text, as a spec.
pub open spec fn stream_format_of(cli: Cli) -> Format {
    match cli.format {
        Some(f) => f,
        None => Format::Json,
    }
}

/// Piped or fetched text is read in the forced format whenever one is
/// given, whatever it is, and as JSON only when none is given.
pub proof fn law_stream_format(cli: Cli)
    ensures
        cli.format matches Some(f) ==> stream_format_of(cli) == f,
        cli.format is None ==> stream_format_of(cli) == Format::Json,
{
}

/// Reads the samples in `text` and appends them to `samples`; on an error
/// `samples` is left as it was.
pub fn add_samples(samples: &mut Vec<JsonValue>, text: &str, format: Format) -> (r: Result<
    (),
    CliError,
>)
    ensures
        samples_added(old(samples)@, final(samples)@, text@, format, unit_outcome(r)),
{
    let ghost before = samples@;
    match parse_all(text, format) {
        Ok(vs) => {
            let mut vs = vs;
            let ghost read = items_model(vs@);
            samples.append(&mut vs);
            assert(items_model(samples@) =~= items_model(before) + read);
            assert(parse_all_outcome(text@, format, Ok::<Seq<Json>, Failure>(read)));
            Ok(())
        },
        Err(e) => Err(e),
    }
}

/// Reads the samples piped in and appends them to `samples`: blank input
/// gives none; otherwise it is read in the stream format.
pub fn add_piped_samples(samples: &mut Vec<JsonValue>, cli: &Cli, buffer: &str) -> (r: Result<
    (),
    CliError,
>)
    ensures
        is_blank(buffer@) ==> r is Ok && final(samples)@ == old(samples)@,
        !is_blank(buffer@) ==> samples_added(
            old(samples)@,
            final(samples)@,
            buffer@,
            stream_format_of(*cli),
            unit_outcome(r),
        ),
{
    if blank(buffer) {
        return Ok(());
    }
    let format = stream_format(cli);
    add_samples(samples, buffer, format)
}

} // verus!
