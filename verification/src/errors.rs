//! The typed errors that catalog operations surface. Backend-specific
//! failures are normalized into these; no other error type crosses the
//! boundary.

use vstd::prelude::*;

verus! {

/// Why a catalog operation failed.
#[derive(Debug, Clone)]
pub enum SearchError {
    /// The catalog's exclusive lock failed.
    LockError,
    /// Persisted data could not be read back as a catalog.
    Json(String),
    /// Reading or writing the persistent snapshot failed.
    Io(String),
    /// The operation referenced an id absent from the catalog.
    NotFound(String),
    /// The submitted item was malformed.
    Other(String),
}

impl SearchError {
    /// A short description of the failure, surfaced to the user interface.
    pub fn message(&self) -> (r: String)
        ensures
            r@ == match *self {
                SearchError::LockError => "Index lock poisoned"@,
                SearchError::Json(ref m) => "JSON serialization/deserialization error: "@ + m@,
                SearchError::Io(ref m) => "IO error: "@ + m@,
                SearchError::NotFound(ref m) => "Item not found with ID: "@ + m@,
                SearchError::Other(ref m) => "Invalid item data: "@ + m@,
            },
    {
        match self {
            SearchError::LockError => String::from_str("Index lock poisoned"),
            SearchError::Json(m) => String::from_str(
                "JSON serialization/deserialization error: ",
            ).concat(m.as_str()),
            SearchError::Io(m) => String::from_str("IO error: ").concat(m.as_str()),
            SearchError::NotFound(m) => String::from_str("Item not found with ID: ").concat(
                m.as_str(),
            ),
            SearchError::Other(m) => String::from_str("Invalid item data: ").concat(m.as_str()),
        }
    }
}

} // verus!
