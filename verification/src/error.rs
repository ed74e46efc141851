//! The errors of a deduplication run.

use vstd::prelude::*;
use vstd::std_specs::convert::FromSpecImpl;
use vstd::string::*;

verus! {

#[verifier::external_type_specification]
#[verifier::external_body]
pub struct ExIoError(std::io::Error);

#[verifier::external_type_specification]
#[verifier::external_body]
pub struct ExFromUtf8Error(std::string::FromUtf8Error);

/// Why a run failed.
#[derive(Debug)]
pub enum Error {
    /// Reading the input or writing the output failed.
    Io(std::io::Error),
    /// The options do not fit the input, or the disk-backed store failed.
    InvalidArgument(String),
    /// Bytes that had to be text were not valid UTF-8.
    Utf8Error(std::string::FromUtf8Error),
}

impl From<std::io::Error> for Error {
    fn from(err: std::io::Error) -> (error: Error) {
        Error::Io(err)
    }
}

impl FromSpecImpl<std::io::Error> for Error {
    open spec fn obeys_from_spec() -> bool {
        true
    }

    open spec fn from_spec(err: std::io::Error) -> Error {
        Error::Io(err)
    }
}

impl From<std::string::FromUtf8Error> for Error {
    fn from(err: std::string::FromUtf8Error) -> (error: Error) {
        Error::Utf8Error(err)
    }
}

impl FromSpecImpl<std::string::FromUtf8Error> for Error {
    open spec fn obeys_from_spec() -> bool {
        true
    }

    open spec fn from_spec(err: std::string::FromUtf8Error) -> Error {
        Error::Utf8Error(err)
    }
}

/// Formats a `std::io::Error` with its `Display` impl. Nothing is claimed of
/// the text.
#[verifier::external_body]
fn io_error_text(error: &std::io::Error) -> (text: String) {
    format!("{}", error)
}

/// Formats a `FromUtf8Error` with its `Display` impl. Nothing is claimed of
/// the text.
#[verifier::external_body]
fn utf8_error_text(error: &std::string::FromUtf8Error) -> (text: String) {
    format!("{}", error)
}

impl Error {
    /// The words that open the message of this kind of error.
    pub open spec fn heading(&self) -> Seq<char> {
        match self {
            Error::Io(_) => "I/O error: "@,
            Error::InvalidArgument(_) => "Invalid argument: "@,
            Error::Utf8Error(_) => "UTF-8 error: "@,
        }
    }

    /// The message of the error: its heading, then the detail. For an invalid
    /// argument the detail is the text the error holds.
    pub fn message(&self) -> (text: String)
        ensures
            self.heading().is_prefix_of(text@),
            self matches Error::InvalidArgument(detail) ==> text@ == self.heading() + detail@,
    {
        match self {
            Error::Io(e) => {
                let detail = io_error_text(e);
                let text = String::from_str("I/O error: ").concat(detail.as_str());
                assert(text@.subrange(0, self.heading().len() as int) =~= self.heading());
                text
            },
            Error::InvalidArgument(detail) => {
                let text = String::from_str("Invalid argument: ").concat(detail.as_str());
                assert(text@.subrange(0, self.heading().len() as int) =~= self.heading());
                text
            },
            Error::Utf8Error(e) => {
                let detail = utf8_error_text(e);
                let text = String::from_str("UTF-8 error: ").concat(detail.as_str());
                assert(text@.subrange(0, self.heading().len() as int) =~= self.heading());
                text
            },
        }
    }
}

} // verus!
