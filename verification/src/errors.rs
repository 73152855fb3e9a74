use vstd::prelude::*;

verus! {

/// Status codes attached to every error the storage engine reports.
#[derive(Clone, Copy, Debug, PartialEq, Eq, Structural)]
pub enum ErrorCodes {
    Success,
    Cancelled,
    Unknown,
    InvalidArgument,
    DeadlineExceeded,
    NotFound,
    AlreadyExists,
    PermissionDenied,
    ResourceExhausted,
    FailedPrecondition,
    Aborted,
    OutOfRange,
    Unimplemented,
    Internal,
    Unavailable,
    DataLoss,
    Unauthenticated,
}

/// A metadata patch value that has no stored representation.
#[derive(Clone, Copy, Debug, PartialEq, Eq, Structural)]
pub enum MetadataValueConversionError {
    InvalidValue,
}

impl MetadataValueConversionError {
    pub open spec fn spec_code(self) -> ErrorCodes {
        ErrorCodes::InvalidArgument
    }

    pub fn code(&self) -> (c: ErrorCodes)
        ensures
            c == self.spec_code(),
    {
        ErrorCodes::InvalidArgument
    }
}

/// Why a batch could not be materialized.
#[derive(Clone, Copy, Debug, PartialEq, Eq, Structural)]
pub enum LogMaterializerV2Error {
    /// A metadata patch held a value that cannot be stored.
    MetadataMaterializationError(MetadataValueConversionError),
    /// An inserting operation carried no embedding.
    EmbeddingMaterializationError,
    /// The record segment could not be read; carries the reader's code.
    RecordSegmentError(ErrorCodes),
}

impl LogMaterializerV2Error {
    pub open spec fn spec_code(self) -> ErrorCodes {
        match self {
            LogMaterializerV2Error::MetadataMaterializationError(e) => e.spec_code(),
            LogMaterializerV2Error::EmbeddingMaterializationError => ErrorCodes::Internal,
            LogMaterializerV2Error::RecordSegmentError(c) => c,
        }
    }

    /// The status code of this error: the wrapped cause's code where there is
    /// one, `Internal` for a missing embedding.
    pub fn code(&self) -> (c: ErrorCodes)
        ensures
            c == self.spec_code(),
    {
        match self {
            LogMaterializerV2Error::MetadataMaterializationError(e) => e.code(),
            LogMaterializerV2Error::EmbeddingMaterializationError => ErrorCodes::Internal,
            LogMaterializerV2Error::RecordSegmentError(c) => *c,
        }
    }
}

} // verus!
