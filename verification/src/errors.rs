//! The ways in which an operation of this library can fail.
use vstd::prelude::*;

verus! {

/// Why an operation failed.
#[derive(Debug, PartialEq, Eq)]
pub enum Error {
    /// A stored document could not be read as what it should hold.
    Serialization,
    /// Nothing is stored under the number or name asked for.
    FileNotFound,
    /// Reading or writing failed for another reason.
    Io,
    /// A stored record was written under a newer schema version, given here.
    UnsupportedMetadataVersion(u64),
    /// A record is already stored under the number, and replacing it was not asked for.
    MetadataAlreadyExists,
    /// A file name or a header line does not have the expected form.
    Parse,
    /// A page template is malformed.
    HandlebarsTemplate,
    /// A page could not be rendered from its template.
    HandlebarsRender,
    /// The pull-request tracker gave no labels for a document.
    GitHub,
    /// The given text names no team.
    ParseTag(String),
    /// The given text is no value of a command-line argument.
    ParseArg(String),
}

/// The value if there is one, else the error `Error::Parse`.
pub open spec fn or_parse_error<T>(value: Option<T>) -> Result<T, Error> {
    match value {
        Some(v) => Ok(v),
        None => Err(Error::Parse),
    }
}

} // verus!
