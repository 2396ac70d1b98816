//! Host operating system identifiers.

use vstd::prelude::*;

verus! {

/// The operating systems a client path configuration can be seeded for.
#[derive(Clone, Copy, Debug, PartialEq, Eq, Structural)]
pub enum OSType {
    MacOS,
    Linux,
    Windows,
}

impl OSType {
    /// The operating system assumed when none is stated.
    pub fn default() -> (r: OSType)
        ensures
            r == OSType::MacOS,
    {
        OSType::MacOS
    }
}

} // verus!
