use vstd::prelude::*;
use vstd::string::*;

use crate::text::{decimal_of, decimal_text};

verus! {

/// Errors surfaced to the HTTP boundary: a failure on the server's side, or a
/// bad request, each described by a message.
#[derive(Debug)]
pub enum AppError {
    Internal(String),
    ValidationError(String),
}

/// Errors of the vector and metadata logs.
#[derive(Debug)]
pub enum StoreError {
    /// A vector's length differs from the store's fixed dimension.
    DimensionMismatch { expected: usize, found: usize },
    /// Reading or writing the backing file failed.
    IoFailure(String),
    /// A record could not be put in the form its log keeps.
    EncodingFailure,
}

impl StoreError {
    /// The text that describes the error.
    pub open spec fn spec_message(&self) -> Seq<char> {
        match self {
            StoreError::DimensionMismatch { expected, found } => "vector dimension mismatch: expected "@
                + decimal_of(*expected as nat) + ", found "@ + decimal_of(*found as nat),
            StoreError::IoFailure(m) => m@,
            StoreError::EncodingFailure => "record cannot be encoded as one line"@,
        }
    }

    pub fn message(&self) -> (r: String)
        ensures
            r@ == self.spec_message(),
    {
        match self {
            StoreError::DimensionMismatch { expected, found } => {
                let mut m = String::from_str("vector dimension mismatch: expected ");
                let e = decimal_text(*expected);
                m.append(e.as_str());
                m.append(", found ");
                let f = decimal_text(*found);
                m.append(f.as_str());
                m
            },
            StoreError::IoFailure(m) => m.clone(),
            StoreError::EncodingFailure => String::from_str("record cannot be encoded as one line"),
        }
    }

    /// The error as the boundary reports it: a wrong dimension is the
    /// client's mistake, anything else is the server's.
    pub fn to_app_error(&self) -> (r: AppError)
        ensures
            self is DimensionMismatch ==> (r matches AppError::ValidationError(m) && m@
                == self.spec_message()),
            !(self is DimensionMismatch) ==> (r matches AppError::Internal(m) && m@
                == self.spec_message()),
    {
        let m = self.message();
        match self {
            StoreError::DimensionMismatch { .. } => AppError::ValidationError(m),
            _ => AppError::Internal(m),
        }
    }
}

} // verus!
