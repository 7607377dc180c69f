use vstd::prelude::*;
use vstd::string::StringExecFns;

verus! {

/// The failures a store operation can report: a closed set of three kinds.
///
/// Absence of a key and a mismatched type are ordinary, recoverable
/// outcomes, never faults. `LockError` belongs to shells that guard a store
/// with an exclusive lock; the sequential stores in this crate never
/// report it, and their contracts say so.
#[derive(Debug)]
pub enum MapError {
    /// The store's exclusive lock could not be acquired.
    LockError,
    /// No entry exists for the given key; carries the key's rendered
    /// identity for diagnostics.
    KeyNotFound(String),
    /// An entry exists, but the type requested does not match the one
    /// recorded at insertion.
    TypeMismatch,
}

impl MapError {
    /// A human-readable description of the error.
    pub fn message(&self) -> (s: String)
        ensures
            match self {
                MapError::LockError => s@ == "Failed to acquire lock"@,
                MapError::KeyNotFound(key) => s@ == "Key not found in store: "@ + key@,
                MapError::TypeMismatch => s@ == "Type mismatch for the requested key"@,
            },
    {
        broadcast use vstd::string::to_string_from_display_ensures_for_str;

        match self {
            MapError::LockError => "Failed to acquire lock".to_string(),
            MapError::KeyNotFound(key) => {
                let mut s = "Key not found in store: ".to_string();
                s.append(key.as_str());
                s
            },
            MapError::TypeMismatch => "Type mismatch for the requested key".to_string(),
        }
    }
}

/// Renders a key for the `KeyNotFound` diagnostic.
///
/// Relies on std's `format!` with the key's `core::fmt::Debug`
/// implementation; the library never interprets the rendered text.
#[verifier::external_body]
pub(crate) fn render_key<K: core::fmt::Debug>(key: &K) -> String {
    format!("{:?}", key)
}

} // verus!
