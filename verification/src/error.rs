//! The error type shared by every operation of the library.

use vstd::prelude::*;
use vstd::string::*;

verus! {

/// The operating system's error value, carried through unread.
#[verifier::external_type_specification]
#[verifier::external_body]
pub struct ExIoError(std::io::Error);

/// The classes of I/O failure that get a variant of their own.
#[derive(Debug, Clone, Copy, PartialEq, Eq, Structural)]
pub enum IoFailure {
    NotFound,
    PermissionDenied,
    Other,
}

/// Errors that can occur while stripping images.
#[derive(Debug)]
#[allow(inconsistent_fields)]
pub enum Error {
    /// I/O error with optional path context.
    Io { source: std::io::Error, path: Option<String> },
    /// Invalid or corrupted image file.
    InvalidImage { path: String, reason: String },
    /// Unsupported image format.
    UnsupportedFormat { path: String, detected: Option<String> },
    /// Argument that could not be understood.
    InvalidArgument { argument: String, reason: String },
    /// Missing required argument.
    MissingArgument { argument: String },
    /// File not found.
    NotFound { path: String },
    /// Permission denied.
    PermissionDenied { path: String },
    /// Output file already exists and overwriting was not asked for.
    OutputExists { path: String },
}

/// Classifies an I/O error by `std::io::Error::kind`. Nothing is claimed
/// of the class: it is whatever the operating system reported.
#[verifier::external_body]
fn classify_io_error(err: &std::io::Error) -> (class: IoFailure) {
    match err.kind() {
        std::io::ErrorKind::NotFound => IoFailure::NotFound,
        std::io::ErrorKind::PermissionDenied => IoFailure::PermissionDenied,
        _ => IoFailure::Other,
    }
}

/// Renders an I/O error as text through its `Display` impl. Nothing is
/// claimed of the text.
#[verifier::external_body]
fn describe_io_error(err: &std::io::Error) -> (text: String) {
    format!("{}", err)
}

/// The text of an I/O error with the detail `detail`.
pub open spec fn io_message_of(path: Option<Seq<char>>, detail: Seq<char>) -> Seq<char> {
    match path {
        Some(p) => "I/O error for '"@ + p + "': "@ + detail,
        None => "I/O error: "@ + detail,
    }
}

/// The view of an optional string.
pub open spec fn view_of(text: Option<String>) -> Option<Seq<char>> {
    match text {
        Some(t) => Some(t@),
        None => None,
    }
}

impl Error {
    /// The text that describes this error, for every variant but `Io`.
    pub open spec fn message_of(self) -> Seq<char> {
        match self {
            Error::Io { source, path } => Seq::empty(),
            Error::InvalidImage { path, reason } => "Invalid image '"@ + path@ + "': "@ + reason@,
            Error::UnsupportedFormat { path, detected } => match detected {
                Some(name) => "Unsupported format '"@ + name@ + "' for '"@ + path@ + "'"@,
                None => "Unknown or unsupported format for '"@ + path@ + "'"@,
            },
            Error::InvalidArgument { argument, reason } => "Invalid argument '"@ + argument@
                + "': "@ + reason@,
            Error::MissingArgument { argument } => "Missing required argument: "@ + argument@,
            Error::NotFound { path } => "File not found: '"@ + path@ + "'"@,
            Error::PermissionDenied { path } => "Permission denied: '"@ + path@ + "'"@,
            Error::OutputExists { path } => "Output file '"@ + path@
                + "' already exists (use --force to overwrite)"@,
        }
    }

    /// Builds the error for an I/O failure of class `class` on `path`.
    pub fn io_with_class(class: IoFailure, err: std::io::Error, path: &str) -> (error: Error)
        ensures
            match class {
                IoFailure::NotFound => error matches Error::NotFound { path: p } && p@ == path@,
                IoFailure::PermissionDenied => error matches Error::PermissionDenied { path: p }
                    && p@ == path@,
                IoFailure::Other => error matches Error::Io { source, path: Some(p) } && source
                    == err && p@ == path@,
            },
    {
        match class {
            IoFailure::NotFound => Error::NotFound { path: String::from_str(path) },
            IoFailure::PermissionDenied => Error::PermissionDenied {
                path: String::from_str(path),
            },
            IoFailure::Other => Error::Io { source: err, path: Some(String::from_str(path)) },
        }
    }

    /// Builds the error for an I/O failure on `path`, by the class of
    /// failure that the operating system reported.
    pub fn io_with_path(err: std::io::Error, path: &str) -> (error: Error)
        ensures
            match error {
                Error::NotFound { path: p } => p@ == path@,
                Error::PermissionDenied { path: p } => p@ == path@,
                Error::Io { source, path: Some(p) } => source == err && p@ == path@,
                _ => false,
            },
    {
        let class = classify_io_error(&err);
        Error::io_with_class(class, err, path)
    }

    /// Builds an invalid-image error.
    pub fn invalid_image(path: &str, reason: &str) -> (error: Error)
        ensures
            error matches Error::InvalidImage { path: p, reason: r } && p@ == path@ && r@
                == reason@,
            error.is_invalid_image(path@),
    {
        Error::InvalidImage { path: String::from_str(path), reason: String::from_str(reason) }
    }

    /// Builds an unsupported-format error.
    pub fn unsupported_format(path: &str, detected: Option<&str>) -> (error: Error)
        ensures
            error matches Error::UnsupportedFormat { path: p, detected: d } && p@ == path@ && (
            match detected {
                Some(name) => d matches Some(n) && n@ == name@,
                None => d is None,
            }),
    {
        let guess = match detected {
            Some(name) => Some(String::from_str(name)),
            None => None,
        };
        Error::UnsupportedFormat { path: String::from_str(path), detected: guess }
    }

    /// True for the error that reports `path` as a malformed image.
    pub open spec fn is_invalid_image(self, path: Seq<char>) -> bool {
        match self {
            Error::InvalidImage { path: p, reason } => p@ == path,
            _ => false,
        }
    }

    /// True for the error that reports an argument that is missing.
    pub open spec fn is_missing_argument(self) -> bool {
        self is MissingArgument
    }

    /// True for the error that reports an argument that cannot be used.
    pub open spec fn is_invalid_argument(self) -> bool {
        self is InvalidArgument
    }

    /// Describes the error in one line of text.
    pub fn message(&self) -> (text: String)
        ensures
            match *self {
                Error::Io { source, path } => exists|detail: Seq<char>|
                    text@ == io_message_of(view_of(path), detail),
                _ => text@ == self.message_of(),
            },
    {
        match self {
            Error::Io { source, path } => {
                let detail = describe_io_error(source);
                let text = io_message(path, detail.as_str());
                assert(text@ == io_message_of(view_of(*path), detail@));
                text
            },
            Error::InvalidImage { path, reason } => {
                String::from_str("Invalid image '").concat(path.as_str()).concat("': ").concat(
                    reason.as_str(),
                )
            },
            Error::UnsupportedFormat { path, detected } => match detected {
                Some(name) => String::from_str("Unsupported format '").concat(
                    name.as_str(),
                ).concat("' for '").concat(path.as_str()).concat("'"),
                None => String::from_str("Unknown or unsupported format for '").concat(
                    path.as_str(),
                ).concat("'"),
            },
            Error::InvalidArgument { argument, reason } => {
                String::from_str("Invalid argument '").concat(argument.as_str()).concat(
                    "': ",
                ).concat(reason.as_str())
            },
            Error::MissingArgument { argument } => {
                String::from_str("Missing required argument: ").concat(argument.as_str())
            },
            Error::NotFound { path } => {
                String::from_str("File not found: '").concat(path.as_str()).concat("'")
            },
            Error::PermissionDenied { path } => {
                String::from_str("Permission denied: '").concat(path.as_str()).concat("'")
            },
            Error::OutputExists { path } => {
                String::from_str("Output file '").concat(path.as_str()).concat(
                    "' already exists (use --force to overwrite)",
                )
            },
        }
    }
}

impl From<std::io::Error> for Error {
    /// Wraps an I/O error that carries no path.
    fn from(err: std::io::Error) -> (error: Error) {
        Error::Io { source: err, path: None }
    }
}

impl vstd::std_specs::convert::FromSpecImpl<std::io::Error> for Error {
    open spec fn obeys_from_spec() -> bool {
        true
    }

    open spec fn from_spec(err: std::io::Error) -> Error {
        Error::Io { source: err, path: None }
    }
}

/// Builds the text of an I/O error from the failing path and the
/// operating system's description.
pub fn io_message(path: &Option<String>, detail: &str) -> (text: String)
    ensures
        text@ == io_message_of(view_of(*path), detail@),
{
    match path {
        Some(p) => String::from_str("I/O error for '").concat(p.as_str()).concat("': ").concat(
            detail,
        ),
        None => String::from_str("I/O error: ").concat(detail),
    }
}

/// The text of one decimal digit.
pub open spec fn digit_of(digit: nat) -> Seq<char> {
    if digit == 0 {
        "0"@
    } else if digit == 1 {
        "1"@
    } else if digit == 2 {
        "2"@
    } else if digit == 3 {
        "3"@
    } else if digit == 4 {
        "4"@
    } else if digit == 5 {
        "5"@
    } else if digit == 6 {
        "6"@
    } else if digit == 7 {
        "7"@
    } else if digit == 8 {
        "8"@
    } else {
        "9"@
    }
}

/// A number in decimal notation, without leading zeros.
pub open spec fn decimal_of(value: nat) -> Seq<char>
    decreases value,
{
    if value < 10 {
        digit_of(value)
    } else {
        decimal_of(value / 10) + digit_of(value % 10)
    }
}

/// The text of one decimal digit.
pub fn digit(value: u64) -> (text: &'static str)
    requires
        value < 10,
    ensures
        text@ == digit_of(value as nat),
{
    if value == 0 {
        "0"
    } else if value == 1 {
        "1"
    } else if value == 2 {
        "2"
    } else if value == 3 {
        "3"
    } else if value == 4 {
        "4"
    } else if value == 5 {
        "5"
    } else if value == 6 {
        "6"
    } else if value == 7 {
        "7"
    } else if value == 8 {
        "8"
    } else {
        "9"
    }
}

/// Writes a number in decimal notation.
pub fn decimal(value: u64) -> (text: String)
    ensures
        text@ == decimal_of(value as nat),
    decreases value,
{
    if value < 10 {
        String::from_str(digit(value))
    } else {
        decimal(value / 10).concat(digit(value % 10))
    }
}

} // verus!
