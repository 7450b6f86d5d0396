//! The errors of the library.

use vstd::prelude::*;

verus! {

/// Why an operation was refused.
#[derive(Debug)]
pub enum Error {
    /// A schema, or a use of one, is not valid.
    Schema { message: String },
    /// Two schemas do not match.
    SchemaMismatch { difference: String },
    /// The caller passed an input that cannot be used.
    InvalidInput { source: String },
    /// An assumption about the state was not met.
    Internal { message: String },
    /// The request is not supported.
    NotSupported { source: String },
    /// The dataset changed in a way that conflicts with the operation.
    CommitConflict { version: u64, source: String },
    /// A stored message could not be read.
    Io { source: String },
}

/// An error as a mathematical value.
pub enum ErrorModel {
    Schema { message: Seq<char> },
    SchemaMismatch { difference: Seq<char> },
    InvalidInput { source: Seq<char> },
    Internal { message: Seq<char> },
    NotSupported { source: Seq<char> },
    CommitConflict { version: u64, source: Seq<char> },
    Io { source: Seq<char> },
}

impl View for Error {
    type V = ErrorModel;

    open spec fn view(&self) -> ErrorModel {
        match self {
            Error::Schema { message } => ErrorModel::Schema { message: message@ },
            Error::SchemaMismatch { difference } => ErrorModel::SchemaMismatch {
                difference: difference@,
            },
            Error::InvalidInput { source } => ErrorModel::InvalidInput { source: source@ },
            Error::Internal { message } => ErrorModel::Internal { message: message@ },
            Error::NotSupported { source } => ErrorModel::NotSupported { source: source@ },
            Error::CommitConflict { version, source } => ErrorModel::CommitConflict {
                version: *version,
                source: source@,
            },
            Error::Io { source } => ErrorModel::Io { source: source@ },
        }
    }
}

/// The outcome of a fallible operation as a mathematical value.
pub open spec fn outcome<T: View>(r: Result<T, Error>) -> Result<T::V, ErrorModel> {
    match r {
        Ok(v) => Ok(v@),
        Err(e) => Err(e@),
    }
}

impl ErrorModel {
    /// The text of the error.
    pub open spec fn text(self) -> Seq<char> {
        match self {
            ErrorModel::Schema { message } => message,
            ErrorModel::SchemaMismatch { difference } => difference,
            ErrorModel::InvalidInput { source } => source,
            ErrorModel::Internal { message } => message,
            ErrorModel::NotSupported { source } => source,
            ErrorModel::CommitConflict { source, .. } => source,
            ErrorModel::Io { source } => source,
        }
    }
}

impl Error {
    /// The text of the error.
    pub fn message(&self) -> (r: &str)
        ensures
            r@ == self@.text(),
    {
        match self {
            Error::Schema { message } => message.as_str(),
            Error::SchemaMismatch { difference } => difference.as_str(),
            Error::InvalidInput { source } => source.as_str(),
            Error::Internal { message } => message.as_str(),
            Error::NotSupported { source } => source.as_str(),
            Error::CommitConflict { version: _, source } => source.as_str(),
            Error::Io { source } => source.as_str(),
        }
    }
}

impl Clone for Error {
    fn clone(&self) -> (r: Self)
        ensures
            r@ == self@,
    {
        match self {
            Error::Schema { message } => Error::Schema { message: message.clone() },
            Error::SchemaMismatch { difference } => Error::SchemaMismatch {
                difference: difference.clone(),
            },
            Error::InvalidInput { source } => Error::InvalidInput { source: source.clone() },
            Error::Internal { message } => Error::Internal { message: message.clone() },
            Error::NotSupported { source } => Error::NotSupported { source: source.clone() },
            Error::CommitConflict { version, source } => Error::CommitConflict {
                version: *version,
                source: source.clone(),
            },
            Error::Io { source } => Error::Io { source: source.clone() },
        }
    }
}

} // verus!
