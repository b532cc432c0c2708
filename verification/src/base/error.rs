use vstd::prelude::*;

verus! {

/// The errors that the library's operations report.
#[derive(Debug, Clone, Copy, PartialEq, Eq, Structural)]
pub enum Error {
    IllegalArgument,
    IllegalState,
    OutOfBounds,
    Utf8Error,
    NotFound,
    Duplicate,
    Todo,
    CapacityExceeded,
    InvalidData,
    MissingNode,
    AlreadyPruned,
    OperationFailed,
    InsufficientEntropy,
    ValidationFailed,
    Overflow,
    Underflow,
    Alloc,
    Serialization,
    InvalidSignature,
    InvalidPublicKey,
    InvalidScalar,
    TooManySignatures,
    IncorrectSignature,
    InvalidCommitment,
    Secp,
    Configuration,
}

/// A plain error code, as handed across the library's edges.
pub struct ErrorCode {
    pub code: u32,
}

/// A pair of plain values used by the library's own checks.
pub struct MyTest {
    pub x: u32,
    pub y: u64,
}

} // verus!
