//! The ways loading a document or a word list can fail.

use vstd::prelude::*;

verus! {

/// Why a document or a word list could not be loaded.
#[derive(Debug, Clone, PartialEq, Eq)]
pub enum LoadError {
    /// The file to check could not be read as text; holds the cause.
    SourceReadFailed(String),
    /// The extension is not in the fixed table and no programming language
    /// could be inferred from the file name.
    FormatUnrecognized,
    /// The custom word list could not be read as text; holds the cause.
    DictionaryReadFailed(String),
}

/// The message shown for an error.
pub open spec fn message_of(e: LoadError) -> Seq<char> {
    match e {
        LoadError::SourceReadFailed(cause) => cause@,
        LoadError::FormatUnrecognized => "Could not detect language ID"@,
        LoadError::DictionaryReadFailed(cause) => cause@,
    }
}

impl LoadError {
    /// The message shown to the user for this error.
    pub fn message(&self) -> (r: String)
        ensures
            r@ == message_of(*self),
    {
        match self {
            LoadError::SourceReadFailed(cause) => cause.clone(),
            LoadError::FormatUnrecognized => "Could not detect language ID".to_owned(),
            LoadError::DictionaryReadFailed(cause) => cause.clone(),
        }
    }
}

} // verus!
