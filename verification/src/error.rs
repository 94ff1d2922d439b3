use vstd::prelude::*;

verus! {

/// Which subsystem a failure originated in. Failures coming out of an
/// outside crate are mapped to the matching tag; the underlying value
/// itself is reported at the boundary, not carried through the core.
#[derive(Clone, Copy, Debug, PartialEq, Eq, Structural)]
pub enum ErrorSource {
    General,
    Io,
    Json,
    Http,
    Regex,
    Addr,
}

/// A failure with a human-readable message and the subsystem it came from.
#[derive(Debug)]
pub struct Error {
    pub message: String,
    pub source: ErrorSource,
}

impl Error {
    pub fn new(message: String, source: ErrorSource) -> (r: Error)
        ensures
            r.message@ == message@,
            r.source == source,
    {
        Error { message, source }
    }

    pub fn message(&self) -> (r: &String)
        ensures
            r@ == self.message@,
    {
        &self.message
    }

    pub fn source(&self) -> (r: ErrorSource)
        ensures
            r == self.source,
    {
        self.source
    }
}

} // verus!
