//! Command-line choices that decide how replies are written.

use vstd::prelude::*;

verus! {

/// The output format asked for; `Auto` writes text on a terminal and JSON
/// when piped.
#[derive(Debug, Clone, Copy, PartialEq, Eq)]
pub enum OutputFormat {
    Auto,
    Json,
    Text,
}

/// Whether replies are written as JSON: always when asked for with
/// `--json` or when `--fields` is given (which filters JSON); else as the
/// output format says, `Auto` choosing JSON when standard output is not a
/// terminal.
pub fn json_output_wanted(
    json_flag: bool,
    fields_given: bool,
    format: OutputFormat,
    stdout_is_terminal: bool,
) -> (r: bool)
    ensures
        r == (json_flag || fields_given || match format {
            OutputFormat::Json => true,
            OutputFormat::Text => false,
            OutputFormat::Auto => !stdout_is_terminal,
        }),
{
    if json_flag || fields_given {
        return true;
    }
    match format {
        OutputFormat::Json => true,
        OutputFormat::Text => false,
        OutputFormat::Auto => !stdout_is_terminal,
    }
}

} // verus!
