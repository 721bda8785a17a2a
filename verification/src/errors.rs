//! Error taxonomy of the flashing engine, and the outcome classification
//! used for best-effort external-tool steps.

use vstd::prelude::*;

verus! {

/// Errors that abort the current directive.
#[derive(Clone, Copy, PartialEq, Eq, Structural, Debug)]
pub enum UpdateError {
    /// Bad magic or structure in a sparse stream; unrecoverable.
    InvalidFormat,
    /// Auto-detection found no numbered chunk entries for the base name.
    NoChunksFound,
    /// Metadata slot count outside {1, 2, 3}.
    UnsupportedMetadataLayout,
    /// The external table-compiler tool exited with a non-zero status.
    TableCompilerFailed,
    /// A compressed payload could not be decoded.
    PayloadDecode,
    /// A numeric field of an external tool's output did not fit.
    NumberOverflow,
    /// A directive lacks a required argument.
    MissingArgument,
    /// A directive argument that must be a number is empty or does not
    /// fit.
    BadNumber,
}

/// Result of one external-tool step, as the caller should propagate it.
#[derive(Clone, Copy, PartialEq, Eq, Structural, Debug)]
pub enum Outcome {
    /// The step succeeded.
    Done,
    /// A best-effort step failed; report it and continue.
    Warning,
    /// A mandatory step failed; abort with the given error.
    Fatal(UpdateError),
}

/// Classifies the exit of one external-tool invocation: a failing
/// best-effort step is only a warning, a failing mandatory step is fatal.
pub fn classify_tool_exit(best_effort: bool, exited_ok: bool, on_fatal: UpdateError) -> (r:
    Outcome)
    ensures
        exited_ok ==> r == Outcome::Done,
        !exited_ok && best_effort ==> r == Outcome::Warning,
        !exited_ok && !best_effort ==> r == Outcome::Fatal(on_fatal),
{
    if exited_ok {
        Outcome::Done
    } else if best_effort {
        Outcome::Warning
    } else {
        Outcome::Fatal(on_fatal)
    }
}

} // verus!
