//! Error kinds shared by every preference operation.

use vstd::prelude::*;
use vstd::string::StringExecFns;

verus! {

/// Errors that can occur when interacting with preferences.
///
/// `Io` carries the text of the underlying filesystem error, `KeyNotFound`
/// reports an absent key or domain, `InvalidType` a document whose root is
/// not a dictionary where one is required, and `Other` any parse,
/// serialize or native-service failure, described in words.
#[derive(Debug, PartialEq, Eq)]
pub enum PrefError {
    Io(String),
    KeyNotFound,
    InvalidType,
    Other(String),
}

/// The message `PrefError::message` renders for each kind.
pub open spec fn spec_message_of(e: PrefError) -> Seq<char> {
    match e {
        PrefError::Io(m) => "IO error: "@ + m@,
        PrefError::KeyNotFound => "Key not found"@,
        PrefError::InvalidType => "Invalid type"@,
        PrefError::Other(m) => m@,
    }
}

impl PrefError {
    /// The human-readable description of this error.
    pub fn message(&self) -> (r: String)
        ensures
            r@ == spec_message_of(*self),
    {
        match self {
            PrefError::Io(m) => "IO error: ".to_owned().concat(m.as_str()),
            PrefError::KeyNotFound => "Key not found".to_owned(),
            PrefError::InvalidType => "Invalid type".to_owned(),
            PrefError::Other(m) => m.clone(),
        }
    }

    /// A structural copy of this error.
    pub fn deep_clone(&self) -> (r: PrefError)
        ensures
            r == *self,
    {
        match self {
            PrefError::Io(m) => PrefError::Io(m.clone()),
            PrefError::KeyNotFound => PrefError::KeyNotFound,
            PrefError::InvalidType => PrefError::InvalidType,
            PrefError::Other(m) => PrefError::Other(m.clone()),
        }
    }
}

} // verus!
