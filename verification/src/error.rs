//! The library's error type.

use vstd::prelude::*;
use vstd::string::StringExecFns;

verus! {

/// Trusted: the I/O error type of std, carried through unopened.
#[verifier::external_type_specification]
#[verifier::external_body]
pub struct ExIoError(std::io::Error);

/// What can go wrong around an inference run.
#[derive(Debug)]
pub enum Error {
    /// The capture could not be decoded.
    PcapParse(String),
    /// A hypothesis breaks the limits of its family.
    InvalidHypothesis(String),
    /// A payload could not be cut as asked.
    ParseError(String),
    /// An I/O error of the platform.
    Io(std::io::Error),
    /// A byte range does not fit its buffer.
    InvalidRange(String),
    /// A plugin failed.
    Plugin(String),
}

/// Trusted: `ToString::to_string` of std on an I/O error. Nothing is claimed
/// of the text.
#[verifier::external_body]
fn io_error_text(error: &std::io::Error) -> (text: String) {
    error.to_string()
}

impl Error {
    /// The words before the detail of each kind of error.
    pub open spec fn heading(self) -> Seq<char> {
        match self {
            Error::PcapParse(_) => "PCAP parsing error: "@,
            Error::InvalidHypothesis(_) => "Invalid hypothesis: "@,
            Error::ParseError(_) => "Parse error: "@,
            Error::Io(_) => "IO error: "@,
            Error::InvalidRange(_) => "Invalid range: "@,
            Error::Plugin(_) => "Plugin error: "@,
        }
    }

    /// The error in words: the heading of its kind, then its detail.
    pub fn message(&self) -> (text: String)
        ensures
            match *self {
                Error::PcapParse(detail) => text@ == self.heading() + detail@,
                Error::InvalidHypothesis(detail) => text@ == self.heading() + detail@,
                Error::ParseError(detail) => text@ == self.heading() + detail@,
                Error::Io(_) => text@.subrange(0, self.heading().len() as int) == self.heading(),
                Error::InvalidRange(detail) => text@ == self.heading() + detail@,
                Error::Plugin(detail) => text@ == self.heading() + detail@,
            },
    {
        match self {
            Error::PcapParse(detail) => {
                let mut text = String::from_str("PCAP parsing error: ");
                text.append(detail.as_str());
                text
            },
            Error::InvalidHypothesis(detail) => {
                let mut text = String::from_str("Invalid hypothesis: ");
                text.append(detail.as_str());
                text
            },
            Error::ParseError(detail) => {
                let mut text = String::from_str("Parse error: ");
                text.append(detail.as_str());
                text
            },
            Error::Io(error) => {
                let mut text = String::from_str("IO error: ");
                let detail = io_error_text(error);
                text.append(detail.as_str());
                assert(text@.subrange(0, "IO error: "@.len() as int) =~= "IO error: "@);
                text
            },
            Error::InvalidRange(detail) => {
                let mut text = String::from_str("Invalid range: ");
                text.append(detail.as_str());
                text
            },
            Error::Plugin(detail) => {
                let mut text = String::from_str("Plugin error: ");
                text.append(detail.as_str());
                text
            },
        }
    }
}

} // verus!
