use vstd::prelude::*;

verus! {

/// Errors reported by the library.
#[derive(Debug, Clone, Copy, PartialEq, Eq, Structural)]
pub enum KindleError {
    /// An input file and `--discover` were both given.
    InputConflict,
    /// No input file, no piped stdin and no `--discover`.
    MissingInput,
    /// `--copy-raw` was given an empty or blank path.
    EmptyCopyRawPath,
    /// `--copy-raw` without a path, but the clippings came from stdin.
    CopyRawNeedsInputFile,
    /// The platform gave no directory for the settings file.
    NoSettingsDirectory,
    /// The pattern of the clipping header did not compile.
    InvalidHeaderPattern,
}

impl KindleError {
    /// The text shown to the user for this error.
    pub open spec fn spec_message(&self) -> Seq<char> {
        match self {
            KindleError::InputConflict => "cannot use an input file with --discover"@,
            KindleError::MissingInput =>
                "missing input: provide a file path, pipe clippings through stdin, or pass --discover"@,
            KindleError::EmptyCopyRawPath => "--copy-raw path cannot be empty"@,
            KindleError::CopyRawNeedsInputFile =>
                "--copy-raw without a path requires a file path or --discover input source"@,
            KindleError::NoSettingsDirectory =>
                "could not determine a settings directory for this platform"@,
            KindleError::InvalidHeaderPattern => "the clipping header pattern is invalid"@,
        }
    }

    /// Returns the text shown to the user for this error.
    pub fn message(&self) -> (m: String)
        ensures
            m@ == self.spec_message(),
    {
        match self {
            KindleError::InputConflict => "cannot use an input file with --discover".to_owned(),
            KindleError::MissingInput =>
                "missing input: provide a file path, pipe clippings through stdin, or pass --discover".to_owned(),
            KindleError::EmptyCopyRawPath => "--copy-raw path cannot be empty".to_owned(),
            KindleError::CopyRawNeedsInputFile =>
                "--copy-raw without a path requires a file path or --discover input source".to_owned(),
            KindleError::NoSettingsDirectory =>
                "could not determine a settings directory for this platform".to_owned(),
            KindleError::InvalidHeaderPattern => "the clipping header pattern is invalid".to_owned(),
        }
    }
}

} // verus!
