//! Errors of the git layer.

use vstd::prelude::*;

verus! {

/// Errors of the storage layer.
#[derive(Debug)]
pub enum GustError {
    IOError(String),
}

/// The ways in which decoding or checking git data can fail.
#[derive(Debug)]
pub enum GitError {
    InvalidObjectType(String),
    InvalidTreeItem(String),
    InvalidPackHeader(String),
    InvalidPackFile(String),
    InvalidIdxFile(String),
    InvalidHashValue(String),
    InvalidObjectInfo(String),
    UnCompletedPackObject(String),
    NotFountHashValue(String),
    /// The byte stream ended before the value being read was complete.
    UnexpectedEof,
    /// Any other failure, with its message.
    Other(String),
}

/// Errors of the large file storage service.
#[derive(Debug)]
pub enum GitLFSError {
    GeneralError(String),
}

/// Builds the generic error that carries `message`.
pub fn make_error(message: &str) -> (res: GitError)
    ensures
        res matches GitError::Other(m) && m@ == message@,
{
    GitError::Other(message.to_owned())
}

/// The message of an error: the text it carries, and for an invalid hash
/// value a sentence that names it.
pub open spec fn error_text(e: GitError) -> Seq<char> {
    match e {
        GitError::InvalidObjectType(s) => s@,
        GitError::InvalidTreeItem(s) => s@,
        GitError::InvalidPackHeader(s) => s@,
        GitError::InvalidPackFile(s) => s@,
        GitError::InvalidIdxFile(s) => s@,
        GitError::InvalidHashValue(s) => "The "@ + s@ + " is not a valid Hash value "@,
        GitError::InvalidObjectInfo(s) => s@,
        GitError::UnCompletedPackObject(s) => s@,
        GitError::NotFountHashValue(s) => s@,
        GitError::UnexpectedEof => "unexpected end of data"@,
        GitError::Other(s) => s@,
    }
}

impl GitError {
    /// The human-readable message of the error.
    pub fn to_string(&self) -> (res: String)
        ensures
            res@ == error_text(*self),
    {
        match self {
            GitError::InvalidHashValue(s) => {
                let mut r = String::from_str("The ");
                r.append(s.as_str());
                r.append(" is not a valid Hash value ");
                r
            },
            GitError::InvalidObjectType(s) => s.clone(),
            GitError::InvalidTreeItem(s) => s.clone(),
            GitError::InvalidPackHeader(s) => s.clone(),
            GitError::InvalidPackFile(s) => s.clone(),
            GitError::InvalidIdxFile(s) => s.clone(),
            GitError::InvalidObjectInfo(s) => s.clone(),
            GitError::UnCompletedPackObject(s) => s.clone(),
            GitError::NotFountHashValue(s) => s.clone(),
            GitError::UnexpectedEof => String::from_str("unexpected end of data"),
            GitError::Other(s) => s.clone(),
        }
    }
}

} // verus!
