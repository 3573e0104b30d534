//! Error model of the read engine.

use vstd::prelude::*;

use crate::hashing::{hex_of, to_hex};

verus! {

/// A failure reported by the blob store backing the repository.
#[derive(Debug, Clone, Copy, PartialEq, Eq, Structural)]
pub enum StoreError {
    /// The addressed chunk is not stored.
    NotFound,
    /// The backend answered, but not in the expected shape.
    InvalidResponse,
    /// The backend could not be reached.
    Connection,
}

/// A failure of one chunk read or touch.
#[derive(Debug, Clone)]
pub enum Error {
    /// The digest is absent from every known generation.
    /// Carries the requested digest.
    NotFound { digest: Vec<u8> },
    /// The recovered plaintext does not hash to the requested digest.
    /// Carries the requested digest and the digest actually read.
    Corrupted { expected: Vec<u8>, actual: Vec<u8> },
    /// The policy asks for decryption but no decrypter was supplied.
    MissingDecrypter,
    /// The decrypter rejected the stored bytes.
    DecryptFailed,
    /// The decompressor rejected the bytes.
    DecompressFailed,
    /// Index chunk content did not divide into whole digest records.
    TruncatedIndex,
    /// A fatal backend failure outside the swallowed cases.
    Store(StoreError),
}

/// What [`Error::describe`] says of each variant.
pub open spec fn spec_describe(e: Error) -> Seq<char> {
    match e {
        Error::NotFound { digest } => "couldn't find chunk: "@ + hex_of(digest@),
        Error::Corrupted { expected, actual } => hex_of(expected@) + " corrupted, data read: "@
            + hex_of(actual@),
        Error::MissingDecrypter => "decrypter expected"@,
        Error::DecryptFailed => "couldn't decrypt chunk"@,
        Error::DecompressFailed => "couldn't decompress chunk"@,
        Error::TruncatedIndex => "index data truncated"@,
        Error::Store(_) => "backend failure"@,
    }
}

impl Error {
    /// A human-readable rendering; corruption reports both digests in hex.
    pub fn describe(&self) -> (s: String)
        ensures
            s@ == spec_describe(*self),
    {
        match self {
            Error::NotFound { digest } => {
                let mut s = "couldn't find chunk: ".to_string();
                let h = to_hex(digest.as_slice());
                s.append(h.as_str());
                s
            },
            Error::Corrupted { expected, actual } => {
                let mut s = to_hex(expected.as_slice());
                s.append(" corrupted, data read: ");
                let a = to_hex(actual.as_slice());
                s.append(a.as_str());
                s
            },
            Error::MissingDecrypter => "decrypter expected".to_string(),
            Error::DecryptFailed => "couldn't decrypt chunk".to_string(),
            Error::DecompressFailed => "couldn't decompress chunk".to_string(),
            Error::TruncatedIndex => "index data truncated".to_string(),
            Error::Store(_) => "backend failure".to_string(),
        }
    }
}

} // verus!
