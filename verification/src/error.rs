//! The conditions under which an operation of this crate fails.
use crate::util::FileType;
use vstd::prelude::*;

verus! {

/// A failed operation.
#[derive(Debug, PartialEq, Eq)]
pub enum Error {
    /// An overlap whose start lies beyond its end was handed to a store.
    InvalidInterval { id: String, start: u32, end: u32 },
    /// Bad regions were asked for a read that the store has never seen.
    UnknownRead { id: String },
    /// A read of length zero cannot be classified.
    InvalidLength { id: String },
    /// The input is not a well-formed file of the given format.
    ReadingError { format: FileType },
    /// A record of the given format could not be written.
    WritingError { format: FileType },
    /// The operation does not apply to files of this type.
    CantRunOperationOnFile { operation: String, filetype: FileType, filename: String },
    /// The type of the file could not be told.
    UnableToDetectFileFormat { filename: String },
}

/// What an [`Error`] says, with each string as the sequence of its characters.
pub enum ErrorView {
    InvalidInterval { id: Seq<char>, start: u32, end: u32 },
    UnknownRead { id: Seq<char> },
    InvalidLength { id: Seq<char> },
    ReadingError { format: FileType },
    WritingError { format: FileType },
    CantRunOperationOnFile { operation: Seq<char>, filetype: FileType, filename: Seq<char> },
    UnableToDetectFileFormat { filename: Seq<char> },
}

impl View for Error {
    type V = ErrorView;

    open spec fn view(&self) -> ErrorView {
        match *self {
            Error::InvalidInterval { id, start, end } => ErrorView::InvalidInterval {
                id: id@,
                start,
                end,
            },
            Error::UnknownRead { id } => ErrorView::UnknownRead { id: id@ },
            Error::InvalidLength { id } => ErrorView::InvalidLength { id: id@ },
            Error::ReadingError { format } => ErrorView::ReadingError { format },
            Error::WritingError { format } => ErrorView::WritingError { format },
            Error::CantRunOperationOnFile { operation, filetype, filename } => {
                ErrorView::CantRunOperationOnFile {
                    operation: operation@,
                    filetype,
                    filename: filename@,
                }
            },
            Error::UnableToDetectFileFormat { filename } => ErrorView::UnableToDetectFileFormat {
                filename: filename@,
            },
        }
    }
}

} // verus!
