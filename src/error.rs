//! What can go wrong while the track data are fetched, read or looked up.

use vstd::prelude::*;
use vstd::string::StringExecFns;

verus! {

/// An error met while the track data are fetched, read or looked up. Each
/// variant carries a message or the name of what is missing.
#[derive(Debug, Clone)]
pub enum ParsecAccessError {
    /// The remote host could not be reached or answered badly.
    Connection(String),
    /// The named datum is missing, empty or malformed.
    DataNotAvailable(String),
    /// A file listing by pattern failed.
    Glob(String),
    /// A file pattern was malformed.
    GlobPattern(String),
    /// A file could not be read or written.
    Io(String),
    /// A stored table is not in the form the codec writes.
    Deserialization(String),
    /// Anything else.
    Other(String),
}

/// The text that describes an error.
pub open spec fn error_text(e: ParsecAccessError) -> Seq<char> {
    match e {
        ParsecAccessError::Connection(m) => "Connection error: "@ + m@,
        ParsecAccessError::DataNotAvailable(m) => "Data "@ + m@ + " not available"@,
        ParsecAccessError::Glob(m) => "Glob error: "@ + m@,
        ParsecAccessError::GlobPattern(m) => "Glob pattern error: "@ + m@,
        ParsecAccessError::Io(m) => "I/O error: "@ + m@,
        ParsecAccessError::Deserialization(m) => "Deserialization error: "@ + m@,
        ParsecAccessError::Other(m) => "Other error: "@ + m@,
    }
}

fn prefixed(head: &str, body: &String) -> (r: String)
    ensures
        r@ == head@ + body@,
{
    let mut r = String::from_str(head);
    r.append(body.as_str());
    r
}

fn joined(head: &str, body: &String, tail: &str) -> (r: String)
    ensures
        r@ == head@ + body@ + tail@,
{
    let mut r = String::from_str(head);
    r.append(body.as_str());
    r.append(tail);
    r
}

impl ParsecAccessError {
    /// A human-readable description of the error.
    pub fn message(&self) -> (r: String)
        ensures
            r@ == error_text(*self),
    {
        match self {
            ParsecAccessError::Connection(m) => prefixed("Connection error: ", m),
            ParsecAccessError::DataNotAvailable(m) => joined("Data ", m, " not available"),
            ParsecAccessError::Glob(m) => prefixed("Glob error: ", m),
            ParsecAccessError::GlobPattern(m) => prefixed("Glob pattern error: ", m),
            ParsecAccessError::Io(m) => prefixed("I/O error: ", m),
            ParsecAccessError::Deserialization(m) => prefixed("Deserialization error: ", m),
            ParsecAccessError::Other(m) => prefixed("Other error: ", m),
        }
    }
}

} // verus!
