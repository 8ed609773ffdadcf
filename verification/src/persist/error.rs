//! Errors of persistence operations.

use arrow::error::ArrowError;
use parquet::errors::ParquetError;
use vstd::prelude::*;

verus! {

/// The error of file operations.
#[verifier::external_type_specification]
#[verifier::external_body]
pub struct ExIoError(std::io::Error);

/// Errors returned by persistence operations.
#[derive(Debug)]
pub enum PersistError {
    Io(std::io::Error),
    Arrow(ArrowError),
    Parquet(ParquetError),
    /// The parts of a file do not hold together.
    Damaged,
}

impl From<std::io::Error> for PersistError {
    fn from(e: std::io::Error) -> (res: Self) {
        Self::Io(e)
    }
}

impl vstd::std_specs::convert::FromSpecImpl<std::io::Error> for PersistError {
    open spec fn obeys_from_spec() -> bool {
        true
    }

    open spec fn from_spec(e: std::io::Error) -> Self {
        PersistError::Io(e)
    }
}

impl From<ArrowError> for PersistError {
    fn from(e: ArrowError) -> (res: Self) {
        Self::Arrow(e)
    }
}

impl vstd::std_specs::convert::FromSpecImpl<ArrowError> for PersistError {
    open spec fn obeys_from_spec() -> bool {
        true
    }

    open spec fn from_spec(e: ArrowError) -> Self {
        PersistError::Arrow(e)
    }
}

impl From<ParquetError> for PersistError {
    fn from(e: ParquetError) -> (res: Self) {
        Self::Parquet(e)
    }
}

impl vstd::std_specs::convert::FromSpecImpl<ParquetError> for PersistError {
    open spec fn obeys_from_spec() -> bool {
        true
    }

    open spec fn from_spec(e: ParquetError) -> Self {
        PersistError::Parquet(e)
    }
}

} // verus!
