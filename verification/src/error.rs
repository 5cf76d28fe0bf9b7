//! The failures that packing and unpacking can report.

use vstd::prelude::*;

verus! {

/// Why an archive, or a part of one, could not be written or read.
#[derive(Clone, Copy, Debug, PartialEq, Eq, Structural)]
pub enum Error {
    /// The input ended in the middle of a value.
    UnexpectedEof,
    /// A variable-length integer had no final byte among its first ten.
    VarintTooLong,
    /// A back-reference with a zero length, a zero distance, or a distance
    /// that reaches before the start of the block.
    BadReference { len: u64, back: u64 },
    /// A block did not reconstruct to exactly its announced length.
    BlockSizeMismatch,
    /// A block announces more bytes than memory can address.
    BlockTooLarge,
    /// A short block repeats its length differently.
    ShortBlockMismatch,
    /// A literal run reaches beyond its block.
    LiteralOverflow,
    /// A match where the context has no earlier position.
    NoPredictedSource,
    /// A match that is too short, or that reaches beyond its source or block.
    BadMatch { len: u64 },
    /// An escape byte with nothing behind it.
    DanglingEscape,
    /// An inline chunk above the maximum size.
    ChunkTooLarge { len: u64 },
    /// A chunk that reaches beyond its body.
    ChunkOvershoot,
    /// More different chunks than there are numbers for.
    TooManyChunks,
    /// A reference to a chunk that did not come before.
    UnknownChunk { number: u64 },
    /// The input does not start with the mark of an archive.
    BadMagic,
    UnknownBackend { id: u8 },
    UnknownEntryKind { id: u8 },
    UnknownHashAlgo { id: u8 },
    InvalidStride { stride: u8 },
    PathNotUtf8,
    LinkNotUtf8,
    CommentNotUtf8,
    /// A comment above 65535 bytes.
    CommentTooLong,
    /// A flag or the compressor asks for a setting that is missing.
    MissingHashAlgo,
    MissingStride,
    MissingPpmdParams,
    /// A file has fewer bytes than announced.
    FileTooShort,
    /// A file does not have the announced number of bytes.
    FileChanged,
    /// The hash behind a body is not the hash of the body.
    HashMismatch,
    /// An archive path that starts at the root.
    AbsolutePath,
    /// An archive path that leaves its directory.
    ParentTraversal,
    /// A compressor failed.
    Compressor,
    /// A decompressor failed.
    Decompressor,
}

} // verus!
