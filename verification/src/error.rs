//! Errors of the library.

use vstd::prelude::*;
use crate::encryption::DecryptionError;

verus! {

/// The error type of `std::io`.
#[verifier::external_type_specification]
#[verifier::external_body]
pub struct ExIoError(std::io::Error);

/// Why an operation of the library failed.
#[derive(Debug)]
pub enum Error {
    /// An Object has the wrong type, e.g. the Object is an Array where a Name would be expected.
    ObjectType { expected: &'static str, found: &'static str },
    /// A dictionary has the wrong /Type.
    DictType { expected: &'static str, found: String },
    /// Lopdf does not (yet) implement a needed feature.
    Unimplemented(&'static str),
    /// The encountered character encoding is invalid.
    CharacterEncoding,
    /// The stream couldn't be decompressed.
    Decompress(DecompressError),
    /// Failed to parse input.
    Parse(ParseError),
    /// Failed to parse content stream.
    ContentStream,
    /// Error when decrypting the contents of the file.
    Decryption(DecryptionError),
    /// The document is not encrypted.
    NotEncrypted,
    /// The document names a security handler other than the standard one.
    UnsupportedSecurityHandler(Vec<u8>),
    /// Dictionary key was not found.
    DictKey(String),
    /// An input or output operation failed.
    IO(std::io::Error),
    /// Invalid object while parsing at offset.
    OldParse { offset: usize },
    /// Offset in file is invalid.
    Offset(usize),
    /// The cross-reference table has no entry in use for the object.
    MissingXrefEntry,
    /// A stream's data could not be read.
    InvalidStream(String),
    /// A number does not fit in the type it is converted to.
    NumericCast(String),
    /// Found Object ID does not match Expected Object ID.
    ObjectIdMismatch,
    /// The Object ID was not found.
    ObjectNotFound,
    /// Page number was not found in document.
    PageNumberNotFound(u32),
    /// Dereferencing object failed due to a reference cycle.
    ReferenceCycle,
    /// Dereferencing object reached the limit.
    /// This might indicate a reference loop.
    ReferenceLimit,
    /// Syntax error while parsing the file.
    Syntax(String),
    /// The file trailer was invalid.
    Trailer,
    /// Decoding byte vector to UTF8 String failed.
    UTF8,
    /// Error while parsing cross reference table.
    Xref(XrefError),
}

/// Why a stream could not be decompressed.
#[derive(Debug, Clone, Copy, PartialEq, Eq)]
pub enum DecompressError {
    /// Decoding ASCII85 failed.
    Ascii85(&'static str),
    /// The decoded output would exceed the given number of bytes.
    MemoryLimitExceeded { limit: usize },
    /// The predicted rows of the stream could not be decoded.
    Predictor,
    /// The data holds a character that is neither a hexadecimal digit nor
    /// white-space before its end marker.
    AsciiHex,
    /// The Brotli data is invalid or ends early.
    Brotli,
}

/// Why input could not be parsed.
#[derive(Debug, Clone, Copy, PartialEq, Eq, Structural)]
pub enum ParseError {
    EndOfInput,
    InvalidFileHeader,
    InvalidContentStream,
    InvalidXref,
}

/// Why a cross-reference table could not be read.
#[derive(Debug, Clone, Copy, PartialEq, Eq, Structural)]
pub enum XrefError {
    /// Could not parse cross reference table.
    Parse,
    /// Could not find start of cross reference table.
    Start,
    /// The trailer's "Prev" field was invalid.
    PrevStart,
    /// The trailer's "XRefStm" field was invalid.
    StreamStart,
}

} // verus!
