//! Document ingestion for a grammar checker: picking a parser from a file's
//! extension, building the token stream, loading a user word list, and
//! deriving a flat cache key from a path.

pub mod text;
pub mod path_key;
pub mod lines;
pub mod dictionary;
pub mod format;
pub mod error;
