//! Error kinds surfaced by the storage core.

use vstd::prelude::*;

verus! {

/// What went wrong inside the datastore.
///
/// `Io` covers filesystem failures reported by an embedding runtime;
/// `Codec` covers record serialization and deserialization failures;
/// `Recovery` is raised when an SST cannot be parsed during startup, in
/// which case the engine refuses to open.
#[derive(Debug, Clone, Copy, PartialEq, Eq, Structural)]
pub enum DatastoreError {
    Io,
    Codec,
    Recovery,
}

impl DatastoreError {
    /// A short human-readable description of the error.
    pub fn message(&self) -> (r: &'static str)
        ensures
            *self is Io ==> r@ == "IO error"@,
            *self is Codec ==> r@ == "Parsing error"@,
            *self is Recovery ==> r@ == "Recovery error"@,
    {
        match self {
            DatastoreError::Io => "IO error",
            DatastoreError::Codec => "Parsing error",
            DatastoreError::Recovery => "Recovery error",
        }
    }
}

pub type Result<T> = core::result::Result<T, DatastoreError>;

} // verus!
