//! Failures reported by the library, each carrying the operating system's
//! error number.
use vstd::prelude::*;

verus! {

/// A scoped failure with the OS error number that caused it.
#[derive(Debug, Clone, Copy, PartialEq, Eq, Structural)]
pub enum Error {
    /// Acquiring a snapshot, link database or instance lookup handle failed.
    Init(i32),
    /// Resolving a device-filesystem path failed.
    Resolve(i32),
    /// A device-link enumeration reported failure.
    Walk(i32),
}

impl Error {
    /// The OS error number carried by this failure.
    pub fn os_error(&self) -> (r: i32)
        ensures
            r == match *self {
                Error::Init(e) => e,
                Error::Resolve(e) => e,
                Error::Walk(e) => e,
            },
    {
        match *self {
            Error::Init(e) => e,
            Error::Resolve(e) => e,
            Error::Walk(e) => e,
        }
    }
}

} // verus!
