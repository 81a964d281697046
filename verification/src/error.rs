use vstd::prelude::*;

verus! {

/// Why an archive could not be produced or restored.
#[derive(Clone, Copy, Debug, PartialEq, Eq, Structural)]
pub enum CodecError {
    /// The input ended before a complete field could be read.
    UnexpectedEof,
    /// The archive does not start with the codec's magic bytes.
    InvalidMagic,
    /// No codec recognises the archive header.
    UnknownFormat,
    /// A block header holds a size the format does not allow.
    InvalidBlockSize,
    /// A block length is zero, too long, or runs past the declared size.
    InvalidBlockLength,
    /// An LZ77 back-reference points outside the restored data.
    InvalidBackReference,
    /// An LZ77 token tag is neither a literal nor a match.
    InvalidTokenTag,
    /// Decoding produced more bytes than the header declares.
    DecodedPastEnd,
    /// A Huffman payload ran out of bits in the middle of a symbol.
    RanOutOfBits,
    /// A Huffman tree node lacks a child.
    MissingChild,
    /// A Huffman code would be longer than 63 bits.
    CodeTooLong,
    /// A zero-length code was handed to the bit writer.
    ZeroLengthCode,
    /// A bit value other than 0 or 1 was handed to a bit sink.
    BitOutOfRange,
    /// Arithmetic-coding frequencies that do not describe a sub-range.
    InvalidFrequencies,
    /// A symbol was not found in the context it was to be coded in.
    SymbolMissing,
    /// A symbol that an earlier context already ruled out reached the flat
    /// order -1 stage.
    SymbolExcluded,
    /// A match-only archive without the byte-coding marker: its older,
    /// bit-coded payload is not decoded here.
    LegacyFormat,
    /// A decoded target lies outside every coded range.
    TargetOutOfRange,
    /// A bit stream stopped between two byte boundaries.
    EndedMidByte,
    /// The arithmetic encoder's count of deferred bits would overflow.
    PendingOverflow,
    /// Command-line arguments that the program does not accept.
    Usage,
    /// A codec name that is not known.
    UnknownCodec,
}

} // verus!
