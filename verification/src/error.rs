//! The errors that decoding archives and compressed streams can report.

use vstd::prelude::*;

verus! {

/// Why reading a compressed stream or an archive failed.
#[derive(Debug, Clone, Copy, PartialEq, Eq, Structural)]
pub enum ArchiveError {
    /// The input ended before the data that was asked for.
    UnexpectedEof,
    /// A stored block whose length and complemented length disagree.
    LenNlenMismatch,
    /// A block header with the reserved block type.
    InvalidBlockType,
    /// A code length repetition at the very start of the code lengths.
    NoCodeLengthToRepeat,
    /// A code length repetition that runs past the announced number of code
    /// lengths.
    TooManyCodeLengths,
    /// A set of code lengths that asks for more codes than fit.
    OverSubscribedCodes,
    /// A literal/length symbol that names no length.
    InvalidLengthSymbol,
    /// A distance symbol that names no distance.
    InvalidDistanceSymbol,
    /// A back-reference that reaches before the start of the output.
    DistanceTooFarBack,
    /// Bits that start no code of the current Huffman code.
    NoSuchCode,
    /// A zip structure whose signature is not the expected one.
    WrongSignature,
    /// No end of central directory record was found in the archive.
    EndOfCentralDirectoryNotFound,
    /// An entry compressed with a method other than storing or DEFLATE.
    UnsupportedCompression,
    /// An encrypted entry.
    EncryptionNotSupported,
}

} // verus!
