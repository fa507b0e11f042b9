//! The run's error taxonomy: decode failures tagged with their format,
//! unsupported formats, structural rule violations in a source, I/O
//! failures reported by the surrounding process, and usage errors.

use vstd::prelude::*;

verus! {

/// Exit code for successful execution.
pub const CODE_SUCCESS: i32 = 0;

/// Exit code for runtime failures (I/O, decoding, invalid sources).
pub const CODE_RUNTIME_ERROR: i32 = 1;

/// Exit code for invalid command-line invocations.
pub const CODE_OPTIONS_ERROR: i32 = 3;

/// Exit code for missing file permissions.
pub const CODE_PERMISSION_DENIED: i32 = 13;

/// The cause of a failed run. Variants that stand for a failure inside an
/// outside component (I/O, a serializer) carry its rendered message.
#[derive(Debug, Clone, PartialEq, Eq)]
pub enum SourceError {
    Io(String),
    SerdeJson(String),
    SerdeYaml(String),
    UnsupportedInputFormat(String),
    UnsupportedOutputFormat(String),
    InvalidInputSource(String),
    Msg(String),
}

/// The rendered one-line message of a `SourceError`.
pub open spec fn spec_source_message(e: SourceError) -> Seq<char> {
    match e {
        SourceError::Io(m) => m@,
        SourceError::SerdeJson(m) => m@,
        SourceError::SerdeYaml(m) => m@,
        SourceError::UnsupportedInputFormat(m) => "Unsupported input format: "@ + m@,
        SourceError::UnsupportedOutputFormat(m) => "Unsupported output format: "@ + m@,
        SourceError::InvalidInputSource(m) => "Invalid input source: "@ + m@,
        SourceError::Msg(m) => m@,
    }
}

impl SourceError {
    /// Whether this error is a decode ("parsing") failure.
    pub open spec fn spec_is_parse_error(&self) -> bool {
        self is SerdeJson || self is SerdeYaml
    }

    /// Whether this error is a decode failure, reported to the user as a
    /// "parsing" error.
    pub fn is_parse_error(&self) -> (r: bool)
        ensures
            r == self.spec_is_parse_error(),
    {
        match self {
            SourceError::SerdeJson(_) => true,
            SourceError::SerdeYaml(_) => true,
            _ => false,
        }
    }

    /// Renders the error as a one-line human-readable message.
    pub fn message(&self) -> (r: String)
        ensures
            r@ == spec_source_message(*self),
    {
        match self {
            SourceError::Io(m) => m.clone(),
            SourceError::SerdeJson(m) => m.clone(),
            SourceError::SerdeYaml(m) => m.clone(),
            SourceError::UnsupportedInputFormat(m) => {
                let mut s = "Unsupported input format: ".to_owned();
                s.append(m.as_str());
                s
            },
            SourceError::UnsupportedOutputFormat(m) => {
                let mut s = "Unsupported output format: ".to_owned();
                s.append(m.as_str());
                s
            },
            SourceError::InvalidInputSource(m) => {
                let mut s = "Invalid input source: ".to_owned();
                s.append(m.as_str());
                s
            },
            SourceError::Msg(m) => m.clone(),
        }
    }
}

/// A fatal error: its cause, optional surrounding context, the exit-code
/// classification, and whether usage help should be printed before exit.
#[derive(Debug, Clone, PartialEq, Eq)]
pub struct Error {
    pub code: Option<i32>,
    pub context: String,
    pub print_help: bool,
    pub source: SourceError,
}

/// The rendered message of an `Error`: the context line (when present)
/// above the cause.
pub open spec fn spec_error_message(e: Error) -> Seq<char> {
    if e.context@.len() == 0 {
        spec_source_message(e.source)
    } else {
        e.context@ + "\n"@ + spec_source_message(e.source)
    }
}

impl Error {
    /// A fresh error around the given cause: no context, no exit code,
    /// no help request.
    pub fn new(source: SourceError) -> (r: Error)
        ensures
            r.code is None,
            r.context@ == Seq::<char>::empty(),
            !r.print_help,
            r.source == source,
    {
        Error { code: None, context: String::new(), print_help: false, source }
    }

    /// Sets the context line: a non-empty context replaces any prior one,
    /// keeping the rendered message at a context line plus the cause. An
    /// empty context prefixes a line break to the prior one.
    pub fn context(self, context: &str) -> (r: Error)
        ensures
            r.code == self.code,
            r.print_help == self.print_help,
            r.source == self.source,
            context@.len() > 0 ==> r.context@ == context@,
            context@.len() == 0 ==> r.context@ == "\n"@ + self.context@,
    {
        let mut e = self;
        if !context.is_empty() {
            e.context = context.to_owned();
        } else {
            let mut s = "\n".to_owned();
            s.append(e.context.as_str());
            e.context = s;
        }
        e
    }

    /// Requests that usage help be printed before exiting.
    pub fn print_help(self) -> (r: Error)
        ensures
            r == (Error { print_help: true, ..self }),
    {
        let mut e = self;
        e.print_help = true;
        e
    }

    /// Sets whether usage help should be printed before exiting.
    pub fn with_print_help(self, print_help: bool) -> (r: Error)
        ensures
            r == (Error { print_help, ..self }),
    {
        let mut e = self;
        e.print_help = print_help;
        e
    }

    /// Classifies the error with an exit code.
    pub fn code(self, code: i32) -> (r: Error)
        ensures
            r == (Error { code: Some(code), ..self }),
    {
        let mut e = self;
        e.code = Some(code);
        e
    }

    /// Removes the exit-code classification.
    pub fn no_code(self) -> (r: Error)
        ensures
            r == (Error { code: None::<i32>, ..self }),
    {
        let mut e = self;
        e.code = None;
        e
    }

    /// Renders the error as its user-visible message: the context line
    /// (when present) above the cause.
    pub fn message(&self) -> (r: String)
        ensures
            r@ == spec_error_message(*self),
    {
        if self.context.as_str().is_empty() {
            self.source.message()
        } else {
            let mut s = self.context.clone();
            s.append("\n");
            s.append(self.source.message().as_str());
            s
        }
    }
}

} // verus!
