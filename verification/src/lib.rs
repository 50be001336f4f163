//! A verified rewriting pipeline for VRM files: GLB-packaged glTF 2.0 assets
//! carrying humanoid-avatar extension data. The library decodes the GLB
//! container, upgrades legacy VRM metadata, removes unreferenced resources,
//! compacts binary buffers, completes the required VRM meta keys, and encodes
//! a fresh GLB with repacked binary chunks.

pub mod cleaner;
pub mod err;
pub mod glb;
pub mod json;
pub mod numtext;
pub mod paths;
pub mod prompt;
pub mod relocate;
pub mod serdeio;
pub mod sweep;
pub mod upgrade;

pub use cleaner::SweepWarning;
pub use err::VrmError;
pub use json::Json;
pub use json::JsonView;
pub use relocate::BufferRelocator;
pub use relocate::BufferViewRegion;

use vstd::prelude::*;
use crate::glb::{glb_parse, glb_bytes, pad4, u32_at, chunk_frames, chunk_frames_len, write_u32,
    pad4_with, split_glb, GLTF_MAGIC, JSON_TYPE, CHUNK_TYPE};
use crate::relocate::{plan_doc, plan_spec, plan_fits, views_of, chunks_from, bytes_views,
    plans_total};
use crate::serdeio::{json_parsed, json_min_bytes, json_from_bytes, json_to_bytes};
use crate::cleaner::{clean_spec, buffer_paths};
use crate::sweep::{sweep_spec, sweep_table};
use crate::upgrade::upgrade_spec;

verus! {

broadcast use vstd::group_vstd_default;

/// The identity reduction pass: the slot where exporter-specific
/// redundancies would be shrunk. It must leave no dangling references, and
/// leaving the document unchanged satisfies that.
pub fn reduce_vroid(v: Json) -> (r: Json)
    ensures
        r@ == v@,
{
    v
}

/// The document after the upgrade, the reduction and the sweeps; its buffer
/// views drive the relocation plan.
pub open spec fn planned_doc(j: JsonView) -> JsonView {
    sweep_spec(clean_spec(upgrade_spec(j)), "buffers"@, buffer_paths())
}

/// The whole in-memory document pipeline: legacy upgrade, reduction,
/// reference sweep with VRM completion, then buffer relocation planning over
/// the swept buffers.
pub open spec fn pipeline_doc(j: JsonView) -> JsonView {
    plan_doc(planned_doc(j))
}

/// Why decoding fails, when it does: the container framing is bad, the JSON
/// chunk does not parse, the plan outgrows the container's 32-bit sizes, the
/// declared total is shorter than the header and JSON chunk, or the binary
/// section runs short or holds a wrong chunk type.
pub open spec fn load_fails(data: Seq<u8>) -> bool {
    match glb_parse(data) {
        None => true,
        Some((version, total_length, json_bytes, rest)) => match json_parsed(json_bytes) {
            None => true,
            Some(doc) => {
                ||| !plan_fits(views_of(planned_doc(doc)))
                ||| total_length < 20 + json_bytes.len()
                ||| chunks_from(
                    rest,
                    0,
                    total_length - 20 - json_bytes.len(),
                    0,
                    sweep_table(clean_spec(upgrade_spec(doc)), buffer_paths()),
                    plan_spec(views_of(planned_doc(doc))),
                ) is None
            },
        },
    }
}

/// A decoded, rewritten VRM: the container version, the rewritten document,
/// the repacked BIN chunks, and the diagnostics the sweeps produced.
pub struct Vrm {
    pub version: u32,
    pub total_chunk_bytes: u32,
    pub chunk0: Json,
    pub chunks: Vec<Vec<u8>>,
    pub warnings: Vec<SweepWarning>,
}

impl Vrm {
    /// The legacy upgrade, as [`upgrade_spec`] states.
    pub fn upgrade_chunk0(v: Json) -> (r: Json)
        ensures
            r@ == upgrade_spec(v@),
    {
        crate::upgrade::upgrade_doc(v)
    }

    /// Decode a whole VRM file and run the pipeline. On success the document
    /// is fully rewritten and the chunks hold the relocated binary regions;
    /// each error names what failed: the container framing, the JSON text,
    /// sizes beyond the container's 32-bit fields, or binary data that runs
    /// short.
    pub fn load_reader(data: &[u8]) -> (r: Result<Vrm, VrmError>)
        ensures
            match r {
                Ok(vrm) => glb_parse(data@) is Some && ({
                    let (version, total_length, json_bytes, rest) = glb_parse(data@)->Some_0;
                    &&& json_parsed(json_bytes) is Some
                    &&& ({
                        let doc = json_parsed(json_bytes)->Some_0;
                        let j1 = planned_doc(doc);
                        &&& vrm.version == version
                        &&& vrm.chunk0@ == pipeline_doc(doc)
                        &&& plan_fits(views_of(j1))
                        &&& 20 + json_bytes.len() <= total_length
                        &&& chunks_from(
                            rest,
                            0,
                            total_length - 20 - json_bytes.len(),
                            0,
                            sweep_table(clean_spec(upgrade_spec(doc)), buffer_paths()),
                            plan_spec(views_of(j1)),
                        ) == Some(bytes_views(vrm.chunks@))
                        &&& vrm.total_chunk_bytes == plans_total(plan_spec(views_of(j1)))
                    })
                }),
                Err(e) => load_fails(data@) && (e is TooShort || e is BadMagic || e
                    is BadJsonChunkType || e is JsonParse || e is TooLarge || e
                    is BadBinChunkType),
            },
    {
        let (version, total_length, json_bytes, rest) = match split_glb(data) {
            Ok(t) => t,
            Err(e) => {
                return Err(e);
            },
        };
        let doc0 = match json_from_bytes(json_bytes.as_slice()) {
            Ok(d) => d,
            Err(_) => {
                return Err(VrmError::JsonParse);
            },
        };
        let doc1 = Self::upgrade_chunk0(doc0);
        let doc1 = reduce_vroid(doc1);
        let (doc2, mut warnings) = crate::cleaner::clean(doc1);
        let (doc3, relocator, mut warns2) = match crate::relocate::relocate_buffers(doc2) {
            Ok(t) => t,
            Err(e) => {
                return Err(e);
            },
        };
        warnings.append(&mut warns2);
        let json_len = json_bytes.len();
        if (total_length as u64) < 20 + json_len as u64 {
            return Err(VrmError::TooShort);
        }
        let remaining = total_length - 20 - json_len as u32;
        let chunks = match relocator.relocate(rest.as_slice(), remaining) {
            Ok(c) => c,
            Err(e) => {
                return Err(e);
            },
        };
        let total_chunk_bytes = relocator.total_chunk_bytes();
        Ok(Vrm { version, total_chunk_bytes, chunk0: doc3, chunks, warnings })
    }

    /// Encode the GLB: the header, the space-padded JSON chunk, then one BIN
    /// chunk per surviving buffer. The declared total length equals the
    /// output's actual length, which is `12 + 8 + |json| + sum of (8 +
    /// |chunk|)`; a file beyond the 32-bit length field is refused.
    #[verifier::loop_isolation(false)]
    pub fn save(&self) -> (r: Result<Vec<u8>, VrmError>)
        ensures
            match r {
                Ok(bytes) => ({
                    let jp = pad4(json_min_bytes(self.chunk0@), 0x20);
                    let cs = bytes_views(self.chunks@);
                    &&& bytes@ == glb_bytes(self.version, jp, cs)
                    &&& bytes@.len() == 12 + 8 + jp.len() + chunk_frames_len(cs)
                    &&& bytes@.len() <= u32::MAX
                    &&& u32_at(bytes@, 8) as int == bytes@.len()
                }),
                Err(e) => e is TooLarge && 12 + 8 + pad4(
                    json_min_bytes(self.chunk0@),
                    0x20,
                ).len() + chunk_frames_len(bytes_views(self.chunks@)) > u32::MAX,
            },
    {
        let ghost jspec = pad4(json_min_bytes(self.chunk0@), 0x20);
        let ghost cs = bytes_views(self.chunks@);
        let mut jp = json_to_bytes(&self.chunk0);
        if jp.len() > usize::MAX - 3 {
            proof {
                crate::glb::lemma_chunk_frames_len(cs);
                assert(jspec.len() >= jp@.len());
            }
            return Err(VrmError::TooLarge);
        }
        pad4_with(&mut jp, 0x20);
        proof {
            assert(jp@ == jspec);
        }
        let mut total: u64 = 12 + 8;
        if jp.len() as u64 > u32::MAX as u64 - total {
            proof {
                crate::glb::lemma_chunk_frames_len(cs);
            }
            return Err(VrmError::TooLarge);
        }
        total = total + jp.len() as u64;
        let n = self.chunks.len();
        let mut k: usize = 0;
        proof {
            assert(cs.subrange(0, 0) =~= Seq::<Seq<u8>>::empty());
            crate::glb::lemma_chunk_frames_len(cs);
        }
        while k < n
            invariant
                0 <= k <= n,
                total as int == 12 + 8 + jspec.len() + chunk_frames_len(cs.subrange(0, k as int)),
                total <= u32::MAX,
            decreases n - k,
        {
            proof {
                assert(cs.subrange(0, k + 1) =~= cs.subrange(0, k as int).push(cs[k as int]));
                lemma_chunk_frames_len_push(cs.subrange(0, k as int), cs[k as int]);
                assert(cs[k as int] == self.chunks@[k as int]@);
            }
            let clen = self.chunks[k].len();
            if total > u32::MAX as u64 - 8 || clen as u64 > u32::MAX as u64 - 8 - total {
                proof {
                    lemma_chunk_frames_len_prefix(cs, k + 1);
                }
                return Err(VrmError::TooLarge);
            }
            total = total + 8 + clen as u64;
            k += 1;
        }
        proof {
            assert(cs.subrange(0, n as int) =~= cs);
        }
        let mut out: Vec<u8> = Vec::new();
        write_u32(&mut out, GLTF_MAGIC);
        write_u32(&mut out, self.version);
        write_u32(&mut out, total as u32);
        write_u32(&mut out, jp.len() as u32);
        write_u32(&mut out, JSON_TYPE);
        out.append(&mut jp);
        proof {
            assert(cs.skip(0) =~= cs);
            assert(out@ + chunk_frames(cs.skip(0)) =~= glb_bytes(self.version, jspec, cs));
        }
        let mut k2: usize = 0;
        while k2 < n
            invariant
                0 <= k2 <= n,
                out@ + chunk_frames(cs.skip(k2 as int)) == glb_bytes(self.version, jspec, cs),
            decreases n - k2,
        {
            proof {
                assert(cs.skip(k2 as int)[0] == cs[k2 as int]);
                assert(cs.skip(k2 as int).skip(1) =~= cs.skip(k2 + 1));
                assert(cs[k2 as int] == self.chunks@[k2 as int]@);
            }
            proof {
                lemma_chunk_len_bound(cs, k2 as int);
            }
            let clen = self.chunks[k2].len();
            write_u32(&mut out, clen as u32);
            write_u32(&mut out, CHUNK_TYPE);
            let mut piece = vstd::slice::slice_to_vec(self.chunks[k2].as_slice());
            out.append(&mut piece);
            k2 += 1;
            proof {
                assert(out@ + chunk_frames(cs.skip(k2 as int)) =~= glb_bytes(
                    self.version,
                    jspec,
                    cs,
                ));
            }
        }
        proof {
            assert(chunk_frames(cs.skip(n as int)) =~= Seq::<u8>::empty());
            assert(out@ =~= glb_bytes(self.version, jspec, cs));
            crate::glb::lemma_chunk_frames_len(cs);
            vstd::bytes::lemma_auto_spec_u32_to_from_le_bytes();
            assert(out@.subrange(8, 12) =~= crate::glb::u32le(total as u32));
        }
        Ok(out)
    }
}

proof fn lemma_chunk_len_bound(cs: Seq<Seq<u8>>, k: int)
    requires
        0 <= k < cs.len(),
    ensures
        cs[k].len() + 8 <= chunk_frames_len(cs),
{
    assert(cs =~= cs.subrange(0, k) + cs.skip(k));
    lemma_chunk_frames_len_concat(cs.subrange(0, k), cs.skip(k));
    crate::glb::lemma_chunk_frames_len(cs.subrange(0, k));
    crate::glb::lemma_chunk_frames_len(cs.skip(k).skip(1));
    assert(chunk_frames_len(cs.skip(k)) == 8 + cs.skip(k)[0].len() + chunk_frames_len(
        cs.skip(k).skip(1),
    ));
    assert(cs.skip(k)[0] == cs[k]);
}

proof fn lemma_chunk_frames_len_push(a: Seq<Seq<u8>>, x: Seq<u8>)
    ensures
        chunk_frames_len(a.push(x)) == chunk_frames_len(a) + 8 + x.len(),
    decreases a.len(),
{
    if a.len() == 0 {
        assert(a.push(x).skip(1) =~= a);
    } else {
        assert(a.push(x).skip(1) =~= a.skip(1).push(x));
        lemma_chunk_frames_len_push(a.skip(1), x);
    }
}

proof fn lemma_chunk_frames_len_concat(a: Seq<Seq<u8>>, b: Seq<Seq<u8>>)
    ensures
        chunk_frames_len(a + b) == chunk_frames_len(a) + chunk_frames_len(b),
    decreases a.len(),
{
    if a.len() == 0 {
        assert(a + b =~= b);
    } else {
        assert((a + b).skip(1) =~= a.skip(1) + b);
        assert((a + b)[0] == a[0]);
        lemma_chunk_frames_len_concat(a.skip(1), b);
    }
}

proof fn lemma_chunk_frames_len_prefix(cs: Seq<Seq<u8>>, k: int)
    requires
        0 <= k <= cs.len(),
    ensures
        chunk_frames_len(cs.subrange(0, k)) <= chunk_frames_len(cs),
{
    assert(cs =~= cs.subrange(0, k) + cs.skip(k));
    lemma_chunk_frames_len_concat(cs.subrange(0, k), cs.skip(k));
    crate::glb::lemma_chunk_frames_len(cs.skip(k));
}

} // verus!
