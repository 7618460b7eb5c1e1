//! Error type for the crate.

use vstd::prelude::*;

verus! {

/// Errors produced while loading a transducer or applying it to input.
#[derive(Debug)]
pub enum Error {
    /// The bytes could not be parsed as an optimized-lookup transducer.
    Format(String),
    /// A feature is recognised but not implemented.
    Unsupported(&'static str),
}

/// The crate's result type.
pub type Result<T> = core::result::Result<T, Error>;

/// `e` is a format error carrying the message `msg`.
pub open spec fn is_format_error(e: Error, msg: Seq<char>) -> bool {
    e matches Error::Format(m) && m@ == msg
}

/// Builds a format error with the given message.
pub(crate) fn format_error(msg: &str) -> (e: Error)
    ensures
        is_format_error(e, msg@),
{
    Error::Format(String::from_str(msg))
}

impl Error {
    /// The message of the error, as the library prints it:
    /// `format error: <message>` or `unsupported: <feature>`.
    pub fn to_string(&self) -> (s: String)
        ensures
            match self {
                Error::Format(m) => s@ == "format error: "@ + m@,
                Error::Unsupported(m) => s@ == "unsupported: "@ + m@,
            },
    {
        match self {
            Error::Format(m) => String::from_str("format error: ").concat(m.as_str()),
            Error::Unsupported(m) => String::from_str("unsupported: ").concat(m),
        }
    }
}

} // verus!
