use vstd::prelude::*;

verus! {

/// An I/O failure of the byte source, carried through unchanged.
#[verifier::external_type_specification]
#[verifier::external_body]
pub struct ExIoError(std::io::Error);

/// What can go wrong while decoding.
#[derive(Debug)]
pub enum Error {
    /// The byte source failed.
    Io(std::io::Error),
    /// The input is malformed; the text says how.
    Other(&'static str),
    /// A container's closing delimiter was reached where a node could start.
    /// Used while scanning a list or dictionary; never returned by `Benc::new`.
    Delim(u8),
    /// The input ended, or held a null byte, where a node could start.
    /// Ends the top-level scan cleanly; never returned by `Benc::new`.
    EndOfFile,
}

impl From<u8> for Error {
    fn from(c: u8) -> Error {
        Error::Delim(c)
    }
}

impl vstd::std_specs::convert::FromSpecImpl<u8> for Error {
    open spec fn obeys_from_spec() -> bool {
        true
    }

    open spec fn from_spec(c: u8) -> Error {
        Error::Delim(c)
    }
}

impl From<std::io::Error> for Error {
    fn from(e: std::io::Error) -> Error {
        Error::Io(e)
    }
}

impl vstd::std_specs::convert::FromSpecImpl<std::io::Error> for Error {
    open spec fn obeys_from_spec() -> bool {
        true
    }

    open spec fn from_spec(e: std::io::Error) -> Error {
        Error::Io(e)
    }
}

impl From<&'static str> for Error {
    fn from(reason: &'static str) -> Error {
        Error::Other(reason)
    }
}

impl vstd::std_specs::convert::FromSpecImpl<&'static str> for Error {
    open spec fn obeys_from_spec() -> bool {
        true
    }

    open spec fn from_spec(reason: &'static str) -> Error {
        Error::Other(reason)
    }
}

} // verus!
