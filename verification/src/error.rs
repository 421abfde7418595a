//! The errors of the library.

use crate::document::DocId;
use crate::id::id_text;
use crate::text::{decimal, decimal_text, join, joined, quoted, quoted_text};
use vstd::prelude::*;

verus! {

/// What sort of failure an `IoError` is.
#[derive(Debug, Clone, Copy, PartialEq, Eq, Structural)]
pub enum ErrorKind {
    /// Bytes that do not hold what they should: a damaged file.
    InvalidData,
    /// An argument that cannot be used.
    InvalidInput,
    /// Something asked for is not there.
    NotFound,
    /// Something to be made is there already.
    AlreadyExists,
    /// Someone else holds what was asked for.
    WouldBlock,
    /// No room is left.
    StorageFull,
    /// Any other failure of the medium.
    Other,
}

/// A failure to read or write, or damage found while reading.
#[derive(Debug)]
pub struct IoError {
    pub kind: ErrorKind,
    pub message: String,
}

impl IoError {
    pub fn new(kind: ErrorKind, message: String) -> (e: IoError)
        ensures
            e.kind == kind,
            e.message@ == message@,
    {
        IoError { kind, message }
    }

    pub fn kind(&self) -> (k: ErrorKind)
        ensures
            k == self.kind,
    {
        self.kind
    }

    /// The text of the error.
    pub fn to_string(&self) -> (s: String)
        ensures
            s@ == self.message@,
    {
        self.message.clone()
    }
}

pub type IoResult<T> = Result<T, IoError>;

/// What a call into the database can fail with.
#[derive(Debug)]
pub enum Error {
    Io(IoError),
    /// A transaction could not be run.
    Txn(String),
    /// A value could not be turned into a document, or back.
    Document(String),
    /// A batch was durably logged but writing it to the main file failed,
    /// even after a retry, so the file may be half-written. Every call
    /// returns this until the database is reopened, which restores the
    /// batch from the write-ahead log.
    Poisoned,
    /// A batch tried to insert a document whose id its collection already
    /// has. The whole batch was rolled back.
    DuplicateId { collection: String, id: DocId },
    /// A write would give document `id` a value in a unique index's
    /// `field` equal to document `existing`'s, or two stored documents
    /// already share one when the index is created. The whole batch was
    /// rolled back, or no index was created.
    DuplicateValue { collection: String, field: String, id: DocId, existing: DocId },
    /// A batch tried to update or delete a document its collection
    /// doesn't have (or the collection doesn't exist). The whole batch
    /// was rolled back.
    NotFound { collection: String, id: DocId },
    /// `upsert` found more than one document matching its filter, so it
    /// couldn't tell which to replace. Nothing was written.
    MultipleMatches { collection: String, count: usize },
    /// An import found a line it can't use. Every chunk before the one
    /// holding this line was already imported.
    Import { line: usize, message: String },
}

/// How an error reads.
pub open spec fn error_text(e: Error) -> Seq<char> {
    match e {
        Error::Io(e) => e.message@,
        Error::Txn(message) => message@,
        Error::Document(message) => message@,
        Error::Poisoned =>
            "the database file may be inconsistent after a failed write; reopen the database to recover it from the write-ahead log"@,
        Error::DuplicateId { collection, id } => "collection "@ + quoted_text(collection@)
            + " already has a document with id "@ + id_text(id@),
        Error::DuplicateValue { collection, field, id, existing } => "collection "@ + quoted_text(
            collection@,
        ) + " has a unique index on "@ + quoted_text(field@) + ", and documents "@ + id_text(
            existing@,
        ) + " and "@ + id_text(id@) + " would have the same value there"@,
        Error::NotFound { collection, id } => "collection "@ + quoted_text(collection@)
            + " has no document with id "@ + id_text(id@),
        Error::MultipleMatches { collection, count } => "upsert into "@ + quoted_text(collection@)
            + ": "@ + decimal(count as nat)
            + " documents match the filter, expected at most one"@,
        Error::Import { line, message } => "import, line "@ + decimal(line as nat) + ": "@
            + message@,
    }
}

impl Error {
    /// What went wrong, in words.
    pub fn to_string(&self) -> (s: String)
        ensures
            s@ == error_text(*self),
    {
        let text: String = match self {
            Error::Io(e) => e.to_string(),
            Error::Txn(message) => message.clone(),
            Error::Document(message) => message.clone(),
            Error::Poisoned => String::from_str(
                "the database file may be inconsistent after a failed write; reopen the database to recover it from the write-ahead log",
            ),
            Error::DuplicateId { collection, id } => join(
                &[
                    "collection ",
                    quoted(collection.as_str()).as_str(),
                    " already has a document with id ",
                    id.to_string().as_str(),
                ],
            ),
            Error::DuplicateValue { collection, field, id, existing } => join(
                &[
                    "collection ",
                    quoted(collection.as_str()).as_str(),
                    " has a unique index on ",
                    quoted(field.as_str()).as_str(),
                    ", and documents ",
                    existing.to_string().as_str(),
                    " and ",
                    id.to_string().as_str(),
                    " would have the same value there",
                ],
            ),
            Error::NotFound { collection, id } => join(
                &[
                    "collection ",
                    quoted(collection.as_str()).as_str(),
                    " has no document with id ",
                    id.to_string().as_str(),
                ],
            ),
            Error::MultipleMatches { collection, count } => join(
                &[
                    "upsert into ",
                    quoted(collection.as_str()).as_str(),
                    ": ",
                    decimal_text(*count as u64).as_str(),
                    " documents match the filter, expected at most one",
                ],
            ),
            Error::Import { line, message } => join(
                &[
                    "import, line ",
                    decimal_text(*line as u64).as_str(),
                    ": ",
                    message.as_str(),
                ],
            ),
        };
        proof {
            reveal_with_fuel(joined, 10);
            assert(text@ =~= error_text(*self));
        }
        text
    }
}

} // verus!
