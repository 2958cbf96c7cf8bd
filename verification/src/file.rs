//! Compression of input and output streams: how a compressed stream is
//! recognised, and how the compression of the output is chosen.
use crate::util::same_text;
use vstd::prelude::*;

verus! {

/// The compression of a stream.
#[derive(Debug, Clone, Copy, PartialEq, Eq, Structural)]
pub enum CompressionFormat {
    /// gzip; such a stream starts with the bytes `1F 8B`.
    Gzip,
    /// bzip2; such a stream starts with the bytes `42 5A`.
    Bzip,
    /// LZMA in an xz container; such a stream starts with the bytes `FD 37`.
    Lzma,
    /// No compression.
    No,
}

/// The compression that the first bytes of a stream give away.
pub open spec fn spec_get_compression(start: Seq<u8>) -> CompressionFormat {
    if start.len() < 2 {
        CompressionFormat::No
    } else if start[0] == 0x1F && start[1] == 0x8B {
        CompressionFormat::Gzip
    } else if start[0] == 0x42 && start[1] == 0x5A {
        CompressionFormat::Bzip
    } else if start[0] == 0xFD && start[1] == 0x37 {
        CompressionFormat::Lzma
    } else {
        CompressionFormat::No
    }
}

/// Tells the compression of a stream from its first bytes. Only the first two
/// are looked at; a stream shorter than that counts as not compressed.
pub fn get_compression(in_stream: &[u8]) -> (format: CompressionFormat)
    ensures
        format == spec_get_compression(in_stream@),
{
    if in_stream.len() < 2 {
        return CompressionFormat::No;
    }
    let first = in_stream[0];
    let second = in_stream[1];
    if first == 0x1F && second == 0x8B {
        CompressionFormat::Gzip
    } else if first == 0x42 && second == 0x5A {
        CompressionFormat::Bzip
    } else if first == 0xFD && second == 0x37 {
        CompressionFormat::Lzma
    } else {
        CompressionFormat::No
    }
}

/// The compression that the name `value` asks for: `gzip`, `bzip` or `lzma`;
/// any other name asks for none.
pub open spec fn named_compression(value: Seq<char>) -> CompressionFormat {
    if value == "gzip"@ {
        CompressionFormat::Gzip
    } else if value == "bzip"@ {
        CompressionFormat::Bzip
    } else if value == "lzma"@ {
        CompressionFormat::Lzma
    } else {
        CompressionFormat::No
    }
}

/// Chooses the compression of the output: the one that `compression_value`
/// names if the caller has set one, and that of the input otherwise.
pub fn choose_compression(
    input_compression: CompressionFormat,
    compression_set: bool,
    compression_value: &str,
) -> (format: CompressionFormat)
    ensures
        !compression_set ==> format == input_compression,
        compression_set ==> format == named_compression(compression_value@),
{
    if !compression_set {
        return input_compression;
    }
    if same_text(compression_value, "gzip") {
        CompressionFormat::Gzip
    } else if same_text(compression_value, "bzip") {
        CompressionFormat::Bzip
    } else if same_text(compression_value, "lzma") {
        CompressionFormat::Lzma
    } else {
        CompressionFormat::No
    }
}

} // verus!
