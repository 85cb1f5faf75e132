use vstd::prelude::*;

verus! {

/// How the underlying byte source or sink failed.
#[derive(Debug, Clone, Copy, PartialEq, Eq, Structural)]
pub enum IoFailure {
    /// The source ended before a value was complete.
    UnexpectedEof,
    /// Any other failure reported by the source or sink.
    Failed,
}

/// Why a value could not be written or read.
#[derive(Debug, PartialEq, Eq)]
pub enum CerealError {
    /// The source or sink failed; a short read is `Io(IoFailure::UnexpectedEof)`.
    Io(IoFailure),
    /// The bytes were read in full but are not an encoding of the type.
    InvalidEncoding,
    /// A sum type's discriminant names no variant.
    UnknownVariant,
    /// A failure of an implementation outside this crate.
    Other(String),
}

pub type CerealResult<T> = Result<T, CerealError>;

/// The error every short read gives.
pub open spec fn end_of_stream() -> CerealError {
    CerealError::Io(IoFailure::UnexpectedEof)
}

} // verus!
