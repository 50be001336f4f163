//! The GLB container: a 12-byte header, one JSON chunk, then BIN chunks. All
//! integer fields are little-endian `u32`; chunk payloads are 4-byte aligned.

use vstd::prelude::*;
use crate::err::VrmError;

verus! {

broadcast use vstd::group_vstd_default;

pub const GLTF_MAGIC: u32 = 0x46546c67;

pub const JSON_TYPE: u32 = 0x4e4f534a;

pub const CHUNK_TYPE: u32 = 0x4e4942;

pub open spec fn u32le(x: u32) -> Seq<u8> {
    vstd::bytes::spec_u32_to_le_bytes(x)
}

/// The `u32` stored little-endian at byte offset `pos`.
pub open spec fn u32_at(data: Seq<u8>, pos: int) -> u32 {
    vstd::bytes::spec_u32_from_le_bytes(data.subrange(pos, pos + 4))
}

/// `s` extended with `fill` bytes to the next multiple of four.
pub open spec fn pad4(s: Seq<u8>, fill: u8) -> Seq<u8> {
    s + Seq::new(((4 - s.len() % 4) % 4) as nat, |i: int| fill)
}

/// The framed BIN chunks: each is its length, the BIN chunk type, then its
/// payload.
pub open spec fn chunk_frames(chunks: Seq<Seq<u8>>) -> Seq<u8>
    decreases chunks.len(),
{
    if chunks.len() == 0 {
        Seq::empty()
    } else {
        u32le(chunks[0].len() as u32) + u32le(CHUNK_TYPE) + chunks[0] + chunk_frames(
            chunks.skip(1),
        )
    }
}

/// The total size the framed BIN chunks occupy: eight header bytes per chunk
/// plus the payloads.
pub open spec fn chunk_frames_len(chunks: Seq<Seq<u8>>) -> int
    decreases chunks.len(),
{
    if chunks.len() == 0 {
        0
    } else {
        8 + chunks[0].len() + chunk_frames_len(chunks.skip(1))
    }
}

/// A whole GLB file: header with the magic, the version and the total length,
/// then the framed JSON chunk, then the framed BIN chunks.
pub open spec fn glb_bytes(version: u32, json: Seq<u8>, chunks: Seq<Seq<u8>>) -> Seq<u8> {
    u32le(GLTF_MAGIC) + u32le(version) + u32le(
        (12 + 8 + json.len() + chunk_frames_len(chunks)) as u32,
    ) + u32le(json.len() as u32) + u32le(JSON_TYPE) + json + chunk_frames(chunks)
}

/// Reading a GLB's fixed part: the version, the declared total length, the
/// JSON payload, and everything after the JSON chunk. Nothing when the magic
/// or the JSON chunk type is wrong, or the file is shorter than its framing
/// claims.
pub open spec fn glb_parse(data: Seq<u8>) -> Option<(u32, u32, Seq<u8>, Seq<u8>)> {
    if data.len() < 20 {
        None
    } else if u32_at(data, 0) != GLTF_MAGIC {
        None
    } else if u32_at(data, 16) != JSON_TYPE {
        None
    } else {
        let json_len = u32_at(data, 12) as int;
        if 20 + json_len > data.len() {
            None
        } else {
            Some(
                (
                    u32_at(data, 4),
                    u32_at(data, 8),
                    data.subrange(20, 20 + json_len),
                    data.subrange(20 + json_len, data.len() as int),
                ),
            )
        }
    }
}

pub proof fn lemma_chunk_frames_len(chunks: Seq<Seq<u8>>)
    ensures
        chunk_frames(chunks).len() == chunk_frames_len(chunks),
        chunk_frames_len(chunks) >= 0,
    decreases chunks.len(),
{
    vstd::bytes::lemma_auto_spec_u32_to_from_le_bytes();
    if chunks.len() > 0 {
        lemma_chunk_frames_len(chunks.skip(1));
    }
}

/// Parsing what `glb_bytes` produced gives back the version, the JSON
/// payload, and the framed BIN chunks.
pub proof fn lemma_glb_roundtrip(version: u32, json: Seq<u8>, chunks: Seq<Seq<u8>>)
    requires
        json.len() <= u32::MAX,
        12 + 8 + json.len() + chunk_frames_len(chunks) <= u32::MAX,
    ensures
        glb_parse(glb_bytes(version, json, chunks)) == Some(
            (
                version,
                (12 + 8 + json.len() + chunk_frames_len(chunks)) as u32,
                json,
                chunk_frames(chunks),
            ),
        ),
{
    vstd::bytes::lemma_auto_spec_u32_to_from_le_bytes();
    lemma_chunk_frames_len(chunks);
    let data = glb_bytes(version, json, chunks);
    assert(data.subrange(0, 4) =~= u32le(GLTF_MAGIC));
    assert(data.subrange(4, 8) =~= u32le(version));
    assert(data.subrange(8, 12) =~= u32le((12 + 8 + json.len() + chunk_frames_len(chunks)) as u32));
    assert(data.subrange(12, 16) =~= u32le(json.len() as u32));
    assert(data.subrange(16, 20) =~= u32le(JSON_TYPE));
    assert(data.subrange(20, 20 + json.len() as int) =~= json);
    assert(data.subrange(20 + json.len() as int, data.len() as int) =~= chunk_frames(chunks));
}

/// Append the little-endian bytes of `x`.
pub fn write_u32(out: &mut Vec<u8>, x: u32)
    ensures
        final(out)@ == old(out)@ + u32le(x),
{
    let mut bytes = vstd::bytes::u32_to_le_bytes(x);
    out.append(&mut bytes);
}

/// Read the little-endian `u32` at byte offset `pos`.
pub fn read_u32(data: &[u8], pos: usize) -> (r: u32)
    requires
        pos + 4 <= data@.len(),
    ensures
        r == u32_at(data@, pos as int),
{
    let n = data.len();
    let s = vstd::slice::slice_subrange(data, pos, pos + 4);
    vstd::bytes::u32_from_le_bytes(s)
}

/// Extend `out` with `fill` bytes to the next multiple of four.
pub fn pad4_with(out: &mut Vec<u8>, fill: u8)
    requires
        old(out)@.len() + 3 <= usize::MAX,
    ensures
        final(out)@ == pad4(old(out)@, fill),
{
    let ghost target = pad4(old(out)@, fill);
    let rem = out.len() % 4;
    if rem != 0 {
        let mut k = rem;
        while k < 4
            invariant
                1 <= k <= 4,
                rem == old(out)@.len() % 4,
                1 <= rem <= 3,
                out@.len() == old(out)@.len() + (k - rem),
                out@ == old(out)@ + Seq::new((k - rem) as nat, |i: int| fill),
            decreases 4 - k,
        {
            out.push(fill);
            proof {
                assert(out@ =~= old(out)@ + Seq::new((k + 1 - rem) as nat, |i: int| fill));
            }
            k += 1;
        }
        proof {
            assert(out@ =~= target);
        }
    } else {
        proof {
            assert(out@ =~= target);
        }
    }
}

/// The version, the JSON chunk payload, and the bytes after the JSON chunk,
/// as [`glb_parse`] reads them. Each error names the check that failed:
/// a short file, a wrong magic, a wrong JSON chunk type, or a JSON length
/// that overruns the file.
pub fn split_glb(data: &[u8]) -> (r: Result<(u32, u32, Vec<u8>, Vec<u8>), VrmError>)
    ensures
        match r {
            Ok((version, total_length, json, rest)) => glb_parse(data@) == Some(
                (version, total_length, json@, rest@),
            ),
            Err(e) => glb_parse(data@) is None && (e is TooShort || e is BadMagic
                || e is BadJsonChunkType),
        },
{
    if data.len() < 20 {
        return Err(VrmError::TooShort);
    }
    if read_u32(data, 0) != GLTF_MAGIC {
        return Err(VrmError::BadMagic);
    }
    if read_u32(data, 16) != JSON_TYPE {
        return Err(VrmError::BadJsonChunkType);
    }
    let version = read_u32(data, 4);
    let total_length = read_u32(data, 8);
    let json_len = read_u32(data, 12) as usize;
    if json_len > data.len() - 20 {
        return Err(VrmError::TooShort);
    }
    let json = vstd::slice::slice_to_vec(vstd::slice::slice_subrange(data, 20, 20 + json_len));
    let rest = vstd::slice::slice_to_vec(
        vstd::slice::slice_subrange(data, 20 + json_len, data.len()),
    );
    Ok((version, total_length, json, rest))
}

} // verus!
