//! The error taxonomy shared by every component.
//!
//! An absent tile or block is never an error: readers return `Ok(None)` for
//! it.  Everything that is an error falls into one of the variants below.

use vstd::prelude::*;
use vstd::string::StringExecFns;

verus! {

/// What went wrong, with a human-readable message where one helps.
///
/// `Corrupt` is a violated structural invariant (bad magic bytes, a range
/// out of bounds, a malformed document); `Io` is a failure of the backing
/// byte source; `Unsupported` is a feature this build or format does not
/// offer; `Config` is a missing or malformed property of an operation;
/// `Cancelled` is cooperative cancellation.
#[derive(Debug, Clone, PartialEq)]
pub enum Error {
    Corrupt(String),
    Io(String),
    Unsupported(String),
    Config(String),
    Cancelled,
}

impl Error {
    /// The message carried by the variant, empty for `Cancelled`.
    pub fn message(&self) -> (r: &str)
        ensures
            r@ == self.spec_message(),
    {
        match self {
            Error::Corrupt(m) => m.as_str(),
            Error::Io(m) => m.as_str(),
            Error::Unsupported(m) => m.as_str(),
            Error::Config(m) => m.as_str(),
            Error::Cancelled => "",
        }
    }

    /// What `message` returns.
    pub open spec fn spec_message(&self) -> Seq<char> {
        match self {
            Error::Corrupt(m) => m@,
            Error::Io(m) => m@,
            Error::Unsupported(m) => m@,
            Error::Config(m) => m@,
            Error::Cancelled => ""@,
        }
    }
}

/// A `Corrupt` error whose message is exactly `msg`.
pub fn corrupt_error(msg: &str) -> (r: Error)
    ensures
        r is Corrupt,
        r.spec_message() == msg@,
{
    Error::Corrupt(msg.to_owned())
}

/// An `Unsupported` error whose message is exactly `msg`.
pub fn unsupported_error(msg: &str) -> (r: Error)
    ensures
        r is Unsupported,
        r.spec_message() == msg@,
{
    Error::Unsupported(msg.to_owned())
}

/// A `Config` error whose message is `before + field + after`, the shape
/// every property error of an operation node takes.
pub fn config_field_error(before: &str, field: &str, after: &str) -> (r: Error)
    ensures
        r is Config,
        r.spec_message() == before@ + field@ + after@,
{
    let mut m = before.to_owned();
    m.append(field);
    m.append(after);
    Error::Config(m)
}

} // verus!
