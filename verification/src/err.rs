//! The pipeline's error type. Every fatal condition of decoding, planning and
//! encoding is one variant; the pipeline stops at the first.

use vstd::prelude::*;

verus! {

/// Why a VRM file was rejected.
#[derive(Debug, PartialEq, Eq, Structural)]
pub enum VrmError {
    /// The file ends before its framing says it may.
    TooShort,
    /// The header does not start with the GLB magic number.
    BadMagic,
    /// The first chunk is not the JSON chunk.
    BadJsonChunkType,
    /// A chunk in the binary section is not a BIN chunk.
    BadBinChunkType,
    /// The JSON chunk is not well-formed JSON.
    JsonParse,
    /// A size does not fit the container's 32-bit length fields.
    TooLarge,
}

} // verus!
