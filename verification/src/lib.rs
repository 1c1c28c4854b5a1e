//! A ZIP container parser and DEFLATE decompressor.
//!
//! The library takes an in-memory byte buffer holding a `.zip` archive,
//! recovers the archive's structural metadata (end-of-central-directory
//! record, central directory headers, local file headers), and reconstructs
//! the uncompressed bytes of each member, supporting the `stored` and
//! `deflate` compression methods.

use vstd::prelude::*;

mod bits;
mod container;
mod deflate;
mod huffman;

pub use bits::BitArray;
pub use bits::ByteStream;
pub use container::CentralDirectoryHeader;
pub use container::CompressionMethod;
pub use container::EndOfCentralDirectoryRecord;
pub use container::LocalFileHeader;
pub use container::PkZip;
pub use container::PkZipFile;
pub use container::get_compression_method;
pub use deflate::get_deflate_compression_type;
pub use deflate::get_fixed_huffman_trees;
pub use deflate::inflate;
pub use deflate::DeflateCompressionType;
pub use huffman::HuffmanTree;
pub use huffman::Node;

verus! {

/// Everything that can go wrong while parsing an archive or decoding a
/// member's compressed stream.  Malformed input is always reported through
/// one of these variants, never by a panic.
#[derive(Clone, Copy, Debug, PartialEq, Eq, Structural)]
pub enum ZipError {
    /// The buffer does not begin with the local-file-header signature.
    NotAZipFile,
    /// No end-of-central-directory signature anywhere in the buffer.
    MissingEocd,
    /// A central-directory or local-file header has the wrong signature,
    /// or a header field (such as a member name) is not decodable.
    CorruptHeader,
    /// The buffer ends before a declared field or payload does.
    Truncated,
    /// A member uses a compression method other than stored or deflate,
    /// or one this library does not know at all.
    UnsupportedCompressionMethod,
    /// Decoded code-length runs do not fill the declared table sizes.
    CorruptHuffmanTable,
    /// A reserved block type, an unmatched Huffman code, or an
    /// out-of-range back-reference inside a DEFLATE stream.
    CorruptStream,
    /// The bit stream was exhausted in the middle of a read.
    EndOfStream,
}

} // verus!
