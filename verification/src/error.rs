//! The one error type of the ledger.

use vstd::prelude::*;
use crate::text::concat2;

verus! {

/// An error, reported to the user as a message.
#[derive(Debug, PartialEq, Eq)]
pub enum AppError {
    /// The database refused or failed a request; holds its message.
    Database(String),
    /// A bank statement could not be read; holds the reason.
    Csv(String),
    /// Any other failure; holds the whole message.
    Other(String),
}

/// What an [`AppError`] holds, as texts.
pub ghost enum ErrorModel {
    Database(Seq<char>),
    Csv(Seq<char>),
    Other(Seq<char>),
}

impl ErrorModel {
    /// The message shown for the error.
    pub open spec fn message(self) -> Seq<char> {
        match self {
            ErrorModel::Database(m) => "database error: "@ + m,
            ErrorModel::Csv(m) => "csv parse error: "@ + m,
            ErrorModel::Other(m) => m,
        }
    }
}

impl View for AppError {
    type V = ErrorModel;

    open spec fn view(&self) -> ErrorModel {
        match self {
            AppError::Database(m) => ErrorModel::Database(m@),
            AppError::Csv(m) => ErrorModel::Csv(m@),
            AppError::Other(m) => ErrorModel::Other(m@),
        }
    }
}

impl AppError {
    /// A copy of the error.
    pub fn copied(&self) -> (e: AppError)
        ensures
            e@ == self@,
    {
        match self {
            AppError::Database(m) => AppError::Database(m.clone()),
            AppError::Csv(m) => AppError::Csv(m.clone()),
            AppError::Other(m) => AppError::Other(m.clone()),
        }
    }

    /// The message shown for the error.
    pub fn message(&self) -> (r: String)
        ensures
            r@ == self@.message(),
    {
        match self {
            AppError::Database(m) => concat2("database error: ", m.as_str()),
            AppError::Csv(m) => concat2("csv parse error: ", m.as_str()),
            AppError::Other(m) => m.clone(),
        }
    }
}

} // verus!
