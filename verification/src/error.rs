//! The errors that parsing and the queries report.

use vstd::prelude::*;
use vstd::string::*;
use vstd::std_specs::convert::FromSpecImpl;

verus! {

/// Failure of the standard library's input and output. Nothing is known of
/// what such a value holds.
#[verifier::external_type_specification]
#[verifier::external_body]
pub struct ExIoError(std::io::Error);

/// What a query reports to the command line.
#[derive(Debug)]
pub enum CliError {
    /// No input was named.
    NotEnoughArgs,
    /// More than one input was named.
    TooManyArgs,
    /// A requested label that the first record does not hold.
    UnknownLabel(String),
    /// A failure below the query: the input could not be read or parsed.
    Other,
}

impl CliError {
    /// The text of `message`.
    pub open spec fn text(&self) -> Seq<char> {
        match self {
            CliError::NotEnoughArgs => "too few arguments"@,
            CliError::TooManyArgs => "too many arguments"@,
            CliError::UnknownLabel(label) => "no such label: "@ + label@,
            CliError::Other => "other"@,
        }
    }

    /// The line shown to the user.
    pub fn message(&self) -> (s: String)
        ensures
            s@ == self.text(),
    {
        match self {
            CliError::NotEnoughArgs => String::from_str("too few arguments"),
            CliError::TooManyArgs => String::from_str("too many arguments"),
            CliError::UnknownLabel(label) => {
                let mut s = String::from_str("no such label: ");
                s.append(label.as_str());
                s
            },
            CliError::Other => String::from_str("other"),
        }
    }

    /// The kind of error in a few fixed words.
    pub fn description(&self) -> (s: &'static str)
        ensures
            s@ == match self {
                CliError::NotEnoughArgs => "too few arguments"@,
                CliError::TooManyArgs => "too many arguments"@,
                CliError::UnknownLabel(_) => "no such label"@,
                CliError::Other => "other"@,
            },
    {
        match self {
            CliError::NotEnoughArgs => "too few arguments",
            CliError::TooManyArgs => "too many arguments",
            CliError::UnknownLabel(_) => "no such label",
            CliError::Other => "other",
        }
    }
}

/// A line that is not made of `label:value` items.
#[derive(Debug)]
pub struct ParseError {
    pub msg: String,
}

impl ParseError {
    /// The text of `message`.
    pub open spec fn text(&self) -> Seq<char> {
        "Parse error: "@ + self.msg@
    }

    /// The line shown to the user.
    pub fn message(&self) -> (s: String)
        ensures
            s@ == self.text(),
    {
        let mut s = String::from_str("Parse error: ");
        s.append(self.msg.as_str());
        s
    }

    /// The kind of error in a few fixed words.
    pub fn description(&self) -> (s: &'static str)
        ensures
            s@ == "parse error"@,
    {
        "parse error"
    }
}

/// What reading records from a source can fail with.
#[derive(Debug)]
pub enum Error {
    /// The source could not be opened or read.
    Io(std::io::Error),
    /// A line of the source is no record.
    Parse(ParseError),
}

impl Error {
    /// The line shown to the user. For a parse error it is that error's
    /// message; for a failure of input it is what the standard library says
    /// of it.
    pub fn message(&self) -> (s: String)
        ensures
            self matches Error::Parse(e) ==> s@ == e.text(),
    {
        match self {
            Error::Io(e) => e.to_string(),
            Error::Parse(e) => e.message(),
        }
    }

    /// The kind of error in a few words.
    pub fn description(&self) -> (s: String)
        ensures
            self is Parse ==> s@ == "parse error"@,
    {
        match self {
            Error::Io(e) => e.to_string(),
            Error::Parse(e) => String::from_str(e.description()),
        }
    }
}

impl From<std::io::Error> for Error {
    fn from(e: std::io::Error) -> (r: Error) {
        Error::Io(e)
    }
}

impl FromSpecImpl<std::io::Error> for Error {
    open spec fn obeys_from_spec() -> bool {
        true
    }

    open spec fn from_spec(e: std::io::Error) -> Error {
        Error::Io(e)
    }
}

impl From<ParseError> for Error {
    fn from(e: ParseError) -> (r: Error) {
        Error::Parse(e)
    }
}

impl FromSpecImpl<ParseError> for Error {
    open spec fn obeys_from_spec() -> bool {
        true
    }

    open spec fn from_spec(e: ParseError) -> Error {
        Error::Parse(e)
    }
}

} // verus!
