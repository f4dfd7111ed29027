//! The errors of the library.
use vstd::prelude::*;

verus! {

/// The error type of `bincode` 1.x, carried through as an opaque value.
#[verifier::external_type_specification]
#[verifier::external_body]
pub struct ExBincodeErrorKind(bincode::ErrorKind);

/// What went wrong while a file was read or written.
#[derive(Debug)]
pub enum IoError {
    /// The file ended inside an entry.
    UnexpectedEof,
    /// Any other failure, with its description.
    Other(String),
}

/// Why the bytes of an entry could not be turned into an entry.
#[derive(Debug)]
pub enum DecodeError {
    /// The fields do not fit the bytes.
    Malformed(Box<bincode::ErrorKind>),
    /// No kind of entry has this number.
    UnknownVariant(u32),
}

#[derive(Debug)]
pub enum WalError {
    Io(IoError),
    Serialization(Box<bincode::ErrorKind>),
    Deserialization(DecodeError),
    OpenWal,
    Validation(String),
    AlreadyFinalized,
    NoNewCheckpoints,
    Checkpoint(String),
    InvalidState(String),
    ApplyStore(String),
    ChecksumMismatch { expected: u32, actual: u32 },
    PartialWrite { offset: u64 },
}

} // verus!
