//! Buffer relocation: plan which byte regions of each original BIN chunk
//! survive and where they land, rewrite the buffer views' offsets, and copy
//! the surviving regions out of the binary section into fresh chunks.

use vstd::prelude::*;
use crate::err::VrmError;
use crate::glb::{CHUNK_TYPE, u32_at, pad4};
use crate::json::{Json, JsonView, json_view, arr_view, obj_view, obj_find, obj_put,
    lemma_arr_view, lemma_obj_view, lemma_obj_find_at, lemma_obj_find_missing,
    lemma_obj_put_at, find_key};
use crate::numtext::{text_u64, u64_text, parse_u64, format_u64};
use crate::paths::count_lt;
use vstd::seq_lib::lemma_sorted_unique;
use vstd::relations::{total_ordering, sorted_by};

verus! {

broadcast use vstd::group_vstd_default;

/// A byte region of a buffer: a half-open interval given by offset and
/// length.
#[derive(Debug, Clone, Copy, PartialEq, Eq, Structural)]
pub struct BufferViewRegion {
    pub byte_offset: u64,
    pub byte_length: u64,
}

impl BufferViewRegion {
    pub open spec fn pair(self) -> (u64, u64) {
        (self.byte_offset, self.byte_length)
    }
}

/// The pairs a region list denotes.
pub open spec fn region_pairs(rs: Seq<BufferViewRegion>) -> Seq<(u64, u64)> {
    rs.map_values(|r: BufferViewRegion| r.pair())
}

/// The bytes of a chunk payload that a region list selects, in order;
/// nothing when a region reaches past the payload.
pub open spec fn regions_bytes(payload: Seq<u8>, regions: Seq<(u64, u64)>) -> Option<Seq<u8>>
    decreases regions.len(),
{
    if regions.len() == 0 {
        Some(Seq::empty())
    } else {
        let (ro, rl) = regions[0];
        if ro + rl <= payload.len() {
            match regions_bytes(payload, regions.drop_first()) {
                Some(c) => Some(payload.subrange(ro as int, ro as int + rl as int) + c),
                None => None,
            }
        } else {
            None
        }
    }
}

/// Walking the binary section chunk by chunk: a surviving chunk (its ordinal
/// is in `rem`) contributes the bytes its regions select, zero-padded to four
/// bytes; a dead chunk is skipped. Nothing on a wrong chunk type or when the
/// data runs short.
pub open spec fn chunks_from(
    data: Seq<u8>,
    pos: int,
    total: int,
    ordinal: int,
    rem: Seq<u64>,
    plans: Seq<Seq<(u64, u64)>>,
) -> Option<Seq<Seq<u8>>>
    decreases (if total - pos >= 0 { total - pos } else { 0int }),
{
    if pos >= total {
        Some(Seq::empty())
    } else if pos + 8 > data.len() {
        None
    } else {
        let clen = u32_at(data, pos) as int;
        let ctype = u32_at(data, pos + 4);
        if ctype != CHUNK_TYPE {
            None
        } else if pos + 8 + clen > data.len() {
            None
        } else {
            let rest = chunks_from(data, pos + 8 + clen, total, ordinal + 1, rem, plans);
            if 0 <= ordinal <= u64::MAX && rem.contains(ordinal as u64) {
                let bi = count_lt(rem, ordinal as u64);
                let regions = if bi < plans.len() {
                    plans[bi]
                } else {
                    Seq::empty()
                };
                let payload = data.subrange(pos + 8, pos + 8 + clen);
                match (regions_bytes(payload, regions), rest) {
                    (Some(c), Some(cs)) => Some(seq![pad4(c, 0)] + cs),
                    _ => None,
                }
            } else {
                rest
            }
        }
    }
}

/// The eight framing bytes of every planned chunk plus the bytes its regions
/// select.
pub open spec fn plans_total(plans: Seq<Seq<(u64, u64)>>) -> int
    decreases plans.len(),
{
    if plans.len() == 0 {
        0int
    } else {
        8 + plan_lens(plans[0]) + plans_total(plans.drop_first())
    }
}

pub open spec fn plan_lens(regions: Seq<(u64, u64)>) -> int
    decreases regions.len(),
{
    if regions.len() == 0 {
        0int
    } else {
        regions[0].1 + plan_lens(regions.drop_first())
    }
}

/// What the relocation planner hands the relocator: the original ordinals of
/// the surviving chunks, ascending, and the surviving regions of each, by
/// post-sweep buffer index.
pub struct BufferRelocator {
    pub remaining_chunk_indexes: Vec<u64>,
    pub remaining_buffer_view_regions_by_index: Vec<Vec<BufferViewRegion>>,
}

impl BufferRelocator {
    /// The plan's regions as pairs, by post-sweep buffer index.
    pub open spec fn plans(self) -> Seq<Seq<(u64, u64)>> {
        Seq::new(
            self.remaining_buffer_view_regions_by_index@.len(),
            |i: int| region_pairs(self.remaining_buffer_view_regions_by_index@[i]@),
        )
    }

    /// The plan's sizes stay within the container's 32-bit length fields.
    pub open spec fn wf(self) -> bool {
        plans_total(self.plans()) <= u32::MAX
    }

    pub fn new(
        _gltf: &Json,
        remaining_chunk_indexes: Vec<u64>,
        remaining_buffer_view_regions_by_index: Vec<Vec<BufferViewRegion>>,
    ) -> (r: BufferRelocator)
        ensures
            r.remaining_chunk_indexes == remaining_chunk_indexes,
            r.remaining_buffer_view_regions_by_index == remaining_buffer_view_regions_by_index,
    {
        BufferRelocator { remaining_chunk_indexes, remaining_buffer_view_regions_by_index }
    }
}

/// The byte sequences a list of byte vectors holds.
pub open spec fn bytes_views(v: Seq<Vec<u8>>) -> Seq<Seq<u8>> {
    v.map_values(|x: Vec<u8>| x@)
}

pub proof fn lemma_plan_lens_nonneg(regions: Seq<(u64, u64)>)
    ensures
        plan_lens(regions) >= 0,
    decreases regions.len(),
{
    if regions.len() > 0 {
        lemma_plan_lens_nonneg(regions.drop_first());
    }
}

pub proof fn lemma_plans_total_nonneg(plans: Seq<Seq<(u64, u64)>>)
    ensures
        plans_total(plans) >= 0,
    decreases plans.len(),
{
    if plans.len() > 0 {
        lemma_plan_lens_nonneg(plans[0]);
        lemma_plans_total_nonneg(plans.drop_first());
    }
}

/// Every single plan's region sizes, plus its eight framing bytes, are part
/// of the total.
pub proof fn lemma_plans_total_bound(plans: Seq<Seq<(u64, u64)>>, i: int)
    requires
        0 <= i < plans.len(),
    ensures
        plan_lens(plans[i]) + 8 <= plans_total(plans),
    decreases plans.len(),
{
    lemma_plan_lens_nonneg(plans[i]);
    if i == 0 {
        lemma_plans_total_nonneg(plans.drop_first());
    } else {
        lemma_plans_total_bound(plans.drop_first(), i - 1);
        lemma_plan_lens_nonneg(plans[0]);
    }
}

/// The first position of `x` in a strictly sorted list, as the count of
/// entries below it.
fn rank_in(t: &Vec<u64>, x: u64) -> (r: Option<usize>)
    requires
        crate::paths::sorted_strict(t@),
    ensures
        match r {
            Some(i) => t@.contains(x) && i == count_lt(t@, x) && i < t@.len() && t@[i as int]
                == x,
            None => !t@.contains(x),
        },
{
    let n = t.len();
    let mut i: usize = 0;
    proof {
        assert(t@.skip(0) =~= t@);
    }
    while i < n
        invariant
            crate::paths::sorted_strict(t@),
            n == t@.len(),
            0 <= i <= n,
            forall|j: int| 0 <= j < i ==> t@[j] < x,
            count_lt(t@, x) == i + count_lt(t@.skip(i as int), x),
        decreases n - i,
    {
        proof {
            assert(t@.skip(i as int)[0] == t@[i as int]);
            assert(t@.skip(i as int).drop_first() =~= t@.skip(i + 1));
        }
        if t[i] >= x {
            proof {
                crate::paths::lemma_count_lt_none(t@.skip(i as int), x);
            }
            if t[i] == x {
                return Some(i);
            }
            proof {
                if t@.contains(x) {
                    let q = choose|q: int| 0 <= q < t@.len() && t@[q] == x;
                    assert(false);
                }
            }
            return None;
        }
        i += 1;
    }
    proof {
        assert(t@.skip(n as int) =~= Seq::<u64>::empty());
        if t@.contains(x) {
            let q = choose|q: int| 0 <= q < t@.len() && t@[q] == x;
            assert(false);
        }
    }
    None
}

impl BufferRelocator {
    /// How many bytes the planned BIN chunks will occupy in the output file:
    /// eight framing bytes for each surviving chunk plus its regions' sizes.
    pub fn total_chunk_bytes(&self) -> (r: u32)
        requires
            self.wf(),
        ensures
            r == plans_total(self.plans()),
    {
        let ghost plans = self.plans();
        let pv = &self.remaining_buffer_view_regions_by_index;
        let n = pv.len();
        let mut total: u64 = 0;
        let mut k: usize = 0;
        proof {
            assert(plans.skip(0) =~= plans);
            lemma_plans_total_nonneg(plans);
        }
        while k < n
            invariant
                self.wf(),
                plans == self.plans(),
                n == pv@.len(),
                plans.len() == n,
                0 <= k <= n,
                pv == self.remaining_buffer_view_regions_by_index,
                total + plans_total(plans.skip(k as int)) == plans_total(plans),
                total <= u32::MAX,
            decreases n - k,
        {
            proof {
                assert(plans.skip(k as int)[0] == plans[k as int]);
                assert(plans.skip(k as int).drop_first() =~= plans.skip(k + 1));
                assert(plans[k as int] == region_pairs(pv@[k as int]@));
                lemma_plans_total_nonneg(plans.skip(k + 1));
                lemma_plan_lens_nonneg(plans[k as int]);
            }
            let regions = &pv[k];
            let ghost rp = region_pairs(regions@);
            let m = regions.len();
            let mut sub: u64 = 0;
            let mut q: usize = 0;
            proof {
                assert(rp.skip(0) =~= rp);
            }
            while q < m
                invariant
                    m == regions@.len(),
                    rp == region_pairs(regions@),
                    rp.len() == m,
                    0 <= q <= m,
                    sub + plan_lens(rp.skip(q as int)) == plan_lens(rp),
                    plan_lens(rp) + 8 + total <= u32::MAX,
                    sub <= u32::MAX,
                decreases m - q,
            {
                proof {
                    assert(rp.skip(q as int)[0] == rp[q as int]);
                    assert(rp.skip(q as int).drop_first() =~= rp.skip(q + 1));
                    assert(rp[q as int] == regions@[q as int].pair());
                    lemma_plan_lens_nonneg(rp.skip(q + 1));
                }
                sub = sub + regions[q].byte_length;
                q += 1;
            }
            proof {
                assert(rp.skip(m as int) =~= Seq::<(u64, u64)>::empty());
            }
            total = total + 8 + sub;
            k += 1;
        }
        proof {
            assert(plans.skip(n as int) =~= Seq::<Seq<(u64, u64)>>::empty());
        }
        total as u32
    }

    /// Copy the surviving regions of each surviving chunk out of the binary
    /// section, each chunk zero-padded to four bytes, as [`chunks_from`]
    /// states. `data` is the part of the file after the JSON chunk and
    /// `total_bytes` the binary length the container header declares. The
    /// errors: a chunk that is not a BIN chunk, and data that runs short of
    /// the framing or of a planned region.
    #[verifier::loop_isolation(false)]
    pub fn relocate(&self, data: &[u8], total_bytes: u32) -> (r: Result<Vec<Vec<u8>>, VrmError>)
        requires
            self.wf(),
            crate::paths::sorted_strict(self.remaining_chunk_indexes@),
        ensures
            match r {
                Ok(chunks) => chunks_from(
                    data@,
                    0,
                    total_bytes as int,
                    0,
                    self.remaining_chunk_indexes@,
                    self.plans(),
                ) == Some(bytes_views(chunks@)),
                Err(e) => chunks_from(
                    data@,
                    0,
                    total_bytes as int,
                    0,
                    self.remaining_chunk_indexes@,
                    self.plans(),
                ) is None && (e is BadBinChunkType || e is TooShort),
            },
    {
        let ghost rem = self.remaining_chunk_indexes@;
        let ghost plans = self.plans();
        let ghost dv = data@;
        let ghost tot = total_bytes as int;
        let n = data.len();
        let mut pos: usize = 0;
        let mut ordinal: u64 = 0;
        let mut out: Vec<Vec<u8>> = Vec::new();
        proof {
            assert(bytes_views(out@) =~= Seq::<Seq<u8>>::empty());
        }
        while (pos as u64) < (total_bytes as u64)
            invariant
                crate::paths::sorted_strict(rem),
                rem == self.remaining_chunk_indexes@,
                plans == self.plans(),
                dv == data@,
                tot == total_bytes as int,
                n == data@.len(),
                pos <= n,
                8 * ordinal <= pos,
                (match chunks_from(dv, pos as int, tot, ordinal as int, rem, plans) {
                    Some(cs) => chunks_from(dv, 0, tot, 0, rem, plans) == Some(
                        bytes_views(out@) + cs,
                    ),
                    None => chunks_from(dv, 0, tot, 0, rem, plans) is None,
                }),
            decreases (if tot - pos >= 0 { tot - pos } else { 0int }),
        {
            if n - pos < 8 {
                return Err(VrmError::TooShort);
            }
            let clen = crate::glb::read_u32(data, pos);
            let ctype = crate::glb::read_u32(data, pos + 4);
            if ctype != CHUNK_TYPE {
                return Err(VrmError::BadBinChunkType);
            }
            if (clen as usize) > n - pos - 8 {
                return Err(VrmError::TooShort);
            }
            let payload_start = pos + 8;
            let ghost payload = dv.subrange(pos + 8, pos + 8 + clen as int);
            match rank_in(&self.remaining_chunk_indexes, ordinal) {
                Some(bi) => {
                    let mut chunk: Vec<u8> = Vec::new();
                    let ghost regions = if (bi as int) < plans.len() {
                        plans[bi as int]
                    } else {
                        Seq::<(u64, u64)>::empty()
                    };
                    let have_plan = bi < self.remaining_buffer_view_regions_by_index.len();
                    let m = if have_plan {
                        self.remaining_buffer_view_regions_by_index[bi].len()
                    } else {
                        0
                    };
                    proof {
                        assert(plans.len()
                            == self.remaining_buffer_view_regions_by_index@.len());
                        if have_plan {
                            assert(regions == region_pairs(
                                self.remaining_buffer_view_regions_by_index@[bi as int]@,
                            ));
                            lemma_plans_total_bound(plans, bi as int);
                        } else {
                            assert(regions =~= Seq::<(u64, u64)>::empty());
                        }
                        assert(regions.len() == m);
                        assert(regions.skip(0) =~= regions);
                        assert(plan_lens(regions) + 8 <= u32::MAX);
                    }
                    let mut q: usize = 0;
                    while q < m
                        invariant
                            dv == data@,
                            n == data@.len(),
                            pos <= n,
                            n - pos >= 8,
                            clen as int + pos + 8 <= n,
                            payload == dv.subrange(pos + 8, pos + 8 + clen as int),
                            payload_start == pos + 8,
                            0 <= q <= m,
                            regions.len() == m,
                            have_plan ==> bi < self.remaining_buffer_view_regions_by_index@.len()
                                && regions == region_pairs(
                                self.remaining_buffer_view_regions_by_index@[bi as int]@,
                            ) && m == self.remaining_buffer_view_regions_by_index@[bi as int]@.len(),
                            !have_plan ==> m == 0 && regions =~= Seq::<(u64, u64)>::empty(),
                            chunk@.len() + plan_lens(regions.skip(q as int)) == plan_lens(
                                regions,
                            ),
                            plan_lens(regions) + 8 <= u32::MAX,
                            (match regions_bytes(payload, regions.skip(q as int)) {
                                Some(c) => regions_bytes(payload, regions) == Some(chunk@ + c),
                                None => regions_bytes(payload, regions) is None,
                            }),
                        decreases m - q,
                    {
                        let r = &self.remaining_buffer_view_regions_by_index[bi][q];
                        let ro = r.byte_offset;
                        let rl = r.byte_length;
                        proof {
                            assert(regions.skip(q as int)[0] == regions[q as int]);
                            assert(regions[q as int] == (ro, rl));
                            assert(regions.skip(q as int).drop_first() =~= regions.skip(q + 1));
                        }
                        if ro > clen as u64 || rl > clen as u64 - ro {
                            proof {
                                assert(regions_bytes(payload, regions.skip(q as int)) is None);
                                assert(regions_bytes(payload, regions) is None);
                                assert(plans.len()
                                    == self.remaining_buffer_view_regions_by_index@.len());
                                assert(rem.contains((ordinal as int) as u64));
                                assert(count_lt(rem, ordinal) == bi as int);
                                assert(chunks_from(dv, pos as int, tot, ordinal as int, rem, plans)
                                    is None);
                            }
                            return Err(VrmError::TooShort);
                        }
                        proof {
                            lemma_plan_lens_nonneg(regions.skip(q + 1));
                        }
                        let ghost chunk0 = chunk@;
                        let mut piece = vstd::slice::slice_to_vec(
                            vstd::slice::slice_subrange(
                                data,
                                payload_start + ro as usize,
                                payload_start + ro as usize + rl as usize,
                            ),
                        );
                        chunk.append(&mut piece);
                        proof {
                            assert(payload.subrange(ro as int, ro as int + rl as int) =~= dv.subrange(
                                pos + 8 + ro as int,
                                pos + 8 + ro as int + rl as int,
                            ));
                            assert(chunk@ =~= chunk0 + payload.subrange(
                                ro as int,
                                ro as int + rl as int,
                            ));
                        }
                        q += 1;
                    }
                    proof {
                        assert(regions.skip(m as int) =~= Seq::<(u64, u64)>::empty());
                    }
                    crate::glb::pad4_with(&mut chunk, 0);
                    let ghost out0 = bytes_views(out@);
                    out.push(chunk);
                    proof {
                        assert(bytes_views(out@) =~= out0.push(chunk@));
                        assert((bytes_views(out@)) + (match chunks_from(
                            dv,
                            pos + 8 + clen as int,
                            tot,
                            ordinal as int + 1,
                            rem,
                            plans,
                        ) {
                            Some(cs) => cs,
                            None => Seq::empty(),
                        }) =~= out0 + (seq![chunk@] + (match chunks_from(
                            dv,
                            pos + 8 + clen as int,
                            tot,
                            ordinal as int + 1,
                            rem,
                            plans,
                        ) {
                            Some(cs) => cs,
                            None => Seq::empty(),
                        })));
                    }
                },
                None => {},
            }
            pos = pos + 8 + clen as usize;
            ordinal = ordinal + 1;
        }
        proof {
            assert(chunks_from(dv, pos as int, tot, ordinal as int, rem, plans) == Some(
                Seq::<Seq<u8>>::empty(),
            ));
            assert(bytes_views(out@) + Seq::<Seq<u8>>::empty() =~= bytes_views(out@));
        }
        Ok(out)
    }
}

/// The numeric value of a node, when it is a number denoting an unsigned
/// 64-bit integer.
pub open spec fn num_val(v: Option<JsonView>) -> Option<u64> {
    match v {
        Some(x) => match x {
            JsonView::Num(s) => text_u64(s),
            _ => None,
        },
        _ => None,
    }
}

pub open spec fn view_buffer(v: JsonView) -> Option<u64> {
    num_val(v.get("buffer"@))
}

pub open spec fn view_length(v: JsonView) -> Option<u64> {
    num_val(v.get("byteLength"@))
}

/// A buffer view's offset; zero when absent or not an index.
pub open spec fn view_offset(v: JsonView) -> u64 {
    match num_val(v.get("byteOffset"@)) {
        Some(o) => o,
        None => 0,
    }
}

/// The region a buffer view claims: its buffer, offset and length; nothing
/// without a readable buffer and length.
pub open spec fn view_region(v: JsonView) -> Option<(u64, (u64, u64))> {
    match (view_buffer(v), view_length(v)) {
        (Some(b), Some(l)) => Some((b, (view_offset(v), l))),
        _ => None,
    }
}

/// One more than the highest buffer index any region claims.
pub open spec fn group_count(views: Seq<JsonView>) -> int
    decreases views.len(),
{
    if views.len() == 0 {
        0int
    } else {
        let head = match view_region(views[0]) {
            Some((b, p)) => b + 1,
            None => 0int,
        };
        let rest = group_count(views.drop_first());
        if head > rest {
            head
        } else {
            rest
        }
    }
}

/// The regions claimed on buffer `b`, in view order.
pub open spec fn regions_of(views: Seq<JsonView>, b: u64) -> Seq<(u64, u64)>
    decreases views.len(),
{
    if views.len() == 0 {
        Seq::empty()
    } else {
        (match view_region(views[0]) {
            Some((vb, p)) => if vb == b {
                seq![p]
            } else {
                Seq::empty()
            },
            None => Seq::empty(),
        }) + regions_of(views.drop_first(), b)
    }
}

/// Regions ordered by offset, then by length.
pub open spec fn region_leq(a: (u64, u64), b: (u64, u64)) -> bool {
    a.0 < b.0 || (a.0 == b.0 && a.1 <= b.1)
}

/// Regions in sorted order.
pub open spec fn sort_pairs(rs: Seq<(u64, u64)>) -> Seq<(u64, u64)> {
    rs.sort_by(|x: (u64, u64), y: (u64, u64)| region_leq(x, y))
}

pub open spec fn sorted_regions(views: Seq<JsonView>, b: u64) -> Seq<(u64, u64)> {
    sort_pairs(regions_of(views, b))
}

pub open spec fn align_up(x: int, a: int) -> int {
    ((x + a - 1) / a) * a
}

pub open spec fn align_dn(x: int, a: int) -> int {
    (x / a) * a
}

/// The gaps between the sorted regions, at eight-byte granularity: walking
/// with a high-water cursor, a gap opens where the aligned cursor lies below
/// a region's aligned start.
pub open spec fn deleted_from(rs: Seq<(u64, u64)>, next: int) -> Seq<(int, int)>
    decreases rs.len(),
{
    if rs.len() == 0 {
        Seq::empty()
    } else {
        let a = align_up(next, 8);
        let b = align_dn(rs[0].0 as int, 8);
        let next2 = if next < rs[0].0 + rs[0].1 {
            rs[0].0 + rs[0].1
        } else {
            next
        };
        (if a < b {
            seq![(a, b - a)]
        } else {
            Seq::empty()
        }) + deleted_from(rs.drop_first(), next2)
    }
}

/// What a view's offset shrinks by: the sizes of the gaps that lie entirely
/// before it.
pub open spec fn shift_before(dels: Seq<(int, int)>, o: int) -> int
    decreases dels.len(),
{
    if dels.len() == 0 {
        0int
    } else {
        (if dels[0].0 + dels[0].1 <= o {
            dels[0].1
        } else {
            0int
        }) + shift_before(dels.drop_first(), o)
    }
}

/// Gap lists are chains: every gap is non-empty, starts at or after `base`,
/// and ends before the next begins.
pub open spec fn chained(dels: Seq<(int, int)>, base: int) -> bool
    decreases dels.len(),
{
    if dels.len() == 0 {
        true
    } else {
        dels[0].0 >= base && dels[0].1 > 0 && chained(dels.drop_first(), dels[0].0 + dels[0].1)
    }
}

pub proof fn lemma_deleted_chained(rs: Seq<(u64, u64)>, next: int)
    requires
        next >= 0,
    ensures
        chained(deleted_from(rs, next), next),
    decreases rs.len(),
{
    if rs.len() > 0 {
        let a = align_up(next, 8);
        let b = align_dn(rs[0].0 as int, 8);
        let next2 = if next < rs[0].0 + rs[0].1 {
            rs[0].0 + rs[0].1 as int
        } else {
            next
        };
        assert(a >= next && a <= next + 7) by {
            vstd::arithmetic::div_mod::lemma_fundamental_div_mod(next + 7, 8);
        }
        assert(b <= rs[0].0) by {
            vstd::arithmetic::div_mod::lemma_fundamental_div_mod(rs[0].0 as int, 8);
        }
        lemma_deleted_chained(rs.drop_first(), next2);
        if a < b {
            let d = deleted_from(rs, next);
            assert(d == seq![(a, b - a)] + deleted_from(rs.drop_first(), next2));
            assert(d.drop_first() =~= deleted_from(rs.drop_first(), next2));
            lemma_chained_weaken(deleted_from(rs.drop_first(), next2), next2, b);
        } else {
            assert(deleted_from(rs, next) =~= deleted_from(rs.drop_first(), next2));
            lemma_chained_weaken(deleted_from(rs.drop_first(), next2), next2, next);
        }
    }
}

pub proof fn lemma_chained_weaken(dels: Seq<(int, int)>, base: int, base2: int)
    requires
        chained(dels, base),
        base2 <= base,
    ensures
        chained(dels, base2),
    decreases dels.len(),
{
}

/// The shift never exceeds the offset: the gaps before `o` are disjoint parts
/// of `[base, o)`.
pub proof fn lemma_shift_le(dels: Seq<(int, int)>, base: int, o: int)
    requires
        chained(dels, base),
        base >= 0,
    ensures
        shift_before(dels, o) <= (if o - base >= 0 { o - base } else { 0int }),
        shift_before(dels, o) >= 0,
    decreases dels.len(),
{
    if dels.len() > 0 {
        let end0 = dels[0].0 + dels[0].1;
        lemma_shift_le(dels.drop_first(), end0, o);
        if end0 <= o {
            assert(shift_before(dels, o) == dels[0].1 + shift_before(dels.drop_first(), o));
        } else {
            assert(shift_before(dels.drop_first(), o) == 0) by {
                lemma_shift_none(dels.drop_first(), end0, o);
            }
        }
    }
}

/// No gap that starts at or after `base > o` ends by `o`.
pub proof fn lemma_shift_none(dels: Seq<(int, int)>, base: int, o: int)
    requires
        chained(dels, base),
        base > o,
    ensures
        shift_before(dels, o) == 0,
    decreases dels.len(),
{
    if dels.len() > 0 {
        lemma_shift_none(dels.drop_first(), dels[0].0 + dels[0].1, o);
    }
}

/// The four-byte-aligned end of the last region: the compacted buffer is
/// measured against it.
pub open spec fn buffer_len_of(rs: Seq<(u64, u64)>) -> int {
    align_up(rs.last().0 + rs.last().1 as int, 4)
}

/// The complement of the gaps inside `[cursor, buflen)`, as regions.
pub open spec fn survive_walk(dels: Seq<(int, int)>, cursor: int, buflen: int) -> Seq<(int, int)>
    decreases dels.len(),
{
    if dels.len() == 0 {
        if buflen > cursor {
            seq![(cursor, buflen - cursor)]
        } else {
            Seq::empty()
        }
    } else {
        (if cursor < dels[0].0 {
            seq![(cursor, dels[0].0 - cursor)]
        } else {
            Seq::empty()
        }) + survive_walk(dels.drop_first(), dels[0].0 + dels[0].1, buflen)
    }
}

pub open spec fn dels_for(views: Seq<JsonView>, b: u64) -> Seq<(int, int)> {
    deleted_from(sorted_regions(views, b), 0)
}

/// The surviving byte regions of buffer `b`, ascending; none when no view
/// claims a region there.
pub open spec fn survivors_for(views: Seq<JsonView>, b: u64) -> Seq<(int, int)> {
    let rs = sorted_regions(views, b);
    if rs.len() == 0 {
        Seq::empty()
    } else {
        survive_walk(dels_for(views, b), 0, buffer_len_of(rs))
    }
}

pub open spec fn sum_lens(rs: Seq<(int, int)>) -> int
    decreases rs.len(),
{
    if rs.len() == 0 {
        0int
    } else {
        rs[0].1 + sum_lens(rs.drop_first())
    }
}

/// A buffer view after relocation: its offset shrinks by the gaps before it.
/// Views without a readable buffer index, or whose buffer no region maps,
/// keep their offset.
pub open spec fn rewrite_one(v: JsonView, views: Seq<JsonView>, gcount: int) -> JsonView {
    match view_buffer(v) {
        Some(b) => if (b as int) < gcount {
            let o = view_offset(v) as int;
            v.put(
                "byteOffset"@,
                JsonView::Num(u64_text(o - shift_before(dels_for(views, b), o))),
            )
        } else {
            v
        },
        None => v,
    }
}

pub open spec fn rewrite_views(views: Seq<JsonView>) -> Seq<JsonView> {
    Seq::new(views.len(), |i: int| rewrite_one(views[i], views, group_count(views)))
}

/// A buffer entry after relocation: its length becomes its surviving
/// regions' total; buffers without regions are untouched.
pub open spec fn update_buffers(bufs: Seq<JsonView>, views: Seq<JsonView>) -> Seq<JsonView> {
    Seq::new(
        bufs.len(),
        |i: int| if 0 <= i < group_count(views) && sorted_regions(views, i as u64).len() > 0 {
            bufs[i].put(
                "byteLength"@,
                JsonView::Num(u64_text(sum_lens(survivors_for(views, i as u64)))),
            )
        } else {
            bufs[i]
        },
    )
}

/// The buffer views of a document, or none.
pub open spec fn views_of(j: JsonView) -> Seq<JsonView> {
    match j.get("bufferViews"@) {
        Some(v) => match v {
            JsonView::Arr(vs) => vs,
            _ => Seq::empty(),
        },
        _ => Seq::empty(),
    }
}

/// The document after relocation planning: rewritten view offsets, updated
/// buffer lengths.
pub open spec fn plan_doc(j: JsonView) -> JsonView {
    let views = views_of(j);
    let j2 = match j.get("bufferViews"@) {
        Some(v) => if v is Arr {
            j.put("bufferViews"@, JsonView::Arr(rewrite_views(views)))
        } else {
            j
        },
        _ => j,
    };
    match j2.get("buffers"@) {
        Some(v) => if v is Arr {
            j2.put("buffers"@, JsonView::Arr(update_buffers(v->Arr_0, views)))
        } else {
            j2
        },
        _ => j2,
    }
}

/// The per-buffer surviving regions, as the plan carries them.
pub open spec fn plan_spec(views: Seq<JsonView>) -> Seq<Seq<(u64, u64)>> {
    Seq::new(
        group_count(views) as nat,
        |b: int| survivors_for(views, b as u64).map_values(
            |p: (int, int)| (p.0 as u64, p.1 as u64),
        ),
    )
}

/// Whether every claimed region end, the group count, and the planned total
/// stay within the container's 32-bit sizes. The planner rejects a document
/// that does not fit.
pub open spec fn plan_fits(views: Seq<JsonView>) -> bool {
    &&& forall|i: int|
        0 <= i < views.len() ==> (match #[trigger] view_region(views[i]) {
            Some((b, (o, l))) => o + l <= u32::MAX,
            None => true,
        })
    &&& group_count(views) <= views.len()
    &&& plans_total(plan_spec(views)) <= u32::MAX
}

/// The ordering of regions is total.
pub proof fn lemma_region_leq_total()
    ensures
        total_ordering(|x: (u64, u64), y: (u64, u64)| region_leq(x, y)),
{
    let leq = |x: (u64, u64), y: (u64, u64)| region_leq(x, y);
    assert forall|x: (u64, u64), y: (u64, u64)| #[trigger] leq(x, y) && leq(y, x) implies x == y by {
        assert(x.0 == y.0 && x.1 == y.1);
    }
    assert forall|x: (u64, u64), y: (u64, u64), z: (u64, u64)|
        #[trigger] leq(x, y) && #[trigger] leq(y, z) implies leq(x, z) by {}
    assert forall|x: (u64, u64), y: (u64, u64)| #[trigger] leq(x, y) || #[trigger] leq(y, x) by {}
}

fn region_le_exec(a: &BufferViewRegion, b: &BufferViewRegion) -> (r: bool)
    ensures
        r == region_leq(a.pair(), b.pair()),
{
    a.byte_offset < b.byte_offset || (a.byte_offset == b.byte_offset && a.byte_length
        <= b.byte_length)
}

/// Sort regions by offset, then length.
#[verifier::loop_isolation(false)]
fn sort_regions_exec(v: Vec<BufferViewRegion>) -> (r: Vec<BufferViewRegion>)
    ensures
        region_pairs(r@) == sort_pairs(region_pairs(v@)),
{
    broadcast use vstd::seq_lib::group_to_multiset_ensures;

    let ghost leq = |x: (u64, u64), y: (u64, u64)| region_leq(x, y);
    let ghost all = region_pairs(v@);
    let mut rest = v;
    let mut out: Vec<BufferViewRegion> = Vec::new();
    proof {
        assert(region_pairs(rest@) =~= all);
        assert(region_pairs(out@) =~= Seq::<(u64, u64)>::empty());
        assert(region_pairs(out@).to_multiset().add(region_pairs(rest@).to_multiset())
            =~= all.to_multiset());
    }
    while rest.len() > 0
        invariant
            region_pairs(out@).to_multiset().add(region_pairs(rest@).to_multiset())
                == all.to_multiset(),
            sorted_by(region_pairs(out@), leq),
            forall|i: int, j: int|
                0 <= i < out@.len() && 0 <= j < rest@.len() ==> leq(
                    #[trigger] region_pairs(out@)[i],
                    #[trigger] region_pairs(rest@)[j],
                ),
        decreases rest@.len(),
    {
        let n = rest.len();
        let mut mi: usize = 0;
        let mut j: usize = 1;
        while j < n
            invariant
                n == rest@.len(),
                0 <= mi < n,
                1 <= j <= n,
                forall|q: int| 0 <= q < j ==> leq(rest@[mi as int].pair(), #[trigger] rest@[q].pair()),
            decreases n - j,
        {
            if region_le_exec(&rest[j], &rest[mi]) {
                mi = j;
            }
            j += 1;
        }
        let ghost rp0 = region_pairs(rest@);
        let ghost op0 = region_pairs(out@);
        let x = rest.remove(mi);
        out.push(x);
        proof {
            assert(region_pairs(rest@) =~= rp0.remove(mi as int));
            assert(region_pairs(out@) =~= op0.push(x.pair()));
            assert(rp0[mi as int] == x.pair());
            assert(region_pairs(out@).to_multiset().add(region_pairs(rest@).to_multiset())
                =~= all.to_multiset());
            assert(sorted_by(region_pairs(out@), leq)) by {
                assert(forall|i: int|
                    0 <= i < op0.len() ==> leq(#[trigger] region_pairs(out@)[i], x.pair()));
            }
            assert forall|i: int, j2: int|
                0 <= i < out@.len() && 0 <= j2 < rest@.len() implies leq(
                #[trigger] region_pairs(out@)[i],
                #[trigger] region_pairs(rest@)[j2],
            ) by {
                if j2 < mi {
                    assert(region_pairs(rest@)[j2] == rp0[j2]);
                } else {
                    assert(region_pairs(rest@)[j2] == rp0[j2 + 1]);
                }
            }
        }
    }
    proof {
        lemma_region_leq_total();
        assert(region_pairs(rest@) =~= Seq::<(u64, u64)>::empty());
        assert(region_pairs(out@).to_multiset() =~= all.to_multiset());
        all.lemma_sort_by_ensures(leq);
        lemma_sorted_unique(region_pairs(out@), all.sort_by(leq), leq);
    }
    out
}

fn view_num_exec(v: &Json, key: &str) -> (r: Option<u64>)
    ensures
        r == num_val(v@.get(key@)),
{
    match v.get(key) {
        Some(x) => match x {
            Json::Num(s) => parse_u64(s.as_str()),
            _ => None,
        },
        None => None,
    }
}

fn view_region_exec(v: &Json) -> (r: Option<(u64, (u64, u64))>)
    ensures
        r == view_region(v@),
{
    let b = view_num_exec(v, "buffer");
    let l = view_num_exec(v, "byteLength");
    let o = match view_num_exec(v, "byteOffset") {
        Some(o) => o,
        None => 0,
    };
    match (b, l) {
        (Some(b), Some(l)) => Some((b, (o, l))),
        _ => None,
    }
}

/// Whether every region a view claims ends within the container's 32-bit
/// sizes.
pub open spec fn regions_bounded(views: Seq<JsonView>) -> bool {
    forall|i: int|
        0 <= i < views.len() ==> (match #[trigger] view_region(views[i]) {
            Some((b, p)) => p.0 + p.1 <= u32::MAX,
            None => true,
        })
}

#[verifier::loop_isolation(false)]
fn check_bounds(views: &Vec<Json>) -> (r: bool)
    ensures
        r == regions_bounded(arr_view(views@)),
{
    proof {
        lemma_arr_view(views@);
    }
    let ghost vws = arr_view(views@);
    let n = views.len();
    for i in 0..n
        invariant
            forall|q: int|
                0 <= q < i ==> (match #[trigger] view_region(vws[q]) {
                    Some((b, p)) => p.0 + p.1 <= u32::MAX,
                    None => true,
                }),
    {
        match view_region_exec(&views[i]) {
            Some((b, (o, l))) => {
                if o > u32::MAX as u64 || l > u32::MAX as u64 - o {
                    proof {
                        assert(view_region(vws[i as int]) == Some((b, (o, l))));
                        assert(!regions_bounded(vws));
                    }
                    return false;
                }
            },
            None => {},
        }
    }
    true
}

#[verifier::loop_isolation(false)]
fn group_count_exec(views: &Vec<Json>) -> (r: Option<u64>)
    ensures
        match r {
            Some(g) => g as int == group_count(arr_view(views@)),
            None => group_count(arr_view(views@)) > u64::MAX,
        },
{
    proof {
        lemma_arr_view(views@);
    }
    let ghost vws = arr_view(views@);
    let n = views.len();
    let mut acc: u64 = 0;
    let mut i: usize = 0;
    proof {
        assert(vws.skip(0) =~= vws);
    }
    while i < n
        invariant
            0 <= i <= n,
            (if acc as int > group_count(vws.skip(i as int)) {
                acc as int
            } else {
                group_count(vws.skip(i as int))
            }) == group_count(vws),
        decreases n - i,
    {
        proof {
            assert(vws.skip(i as int)[0] == vws[i as int]);
            assert(vws.skip(i as int).drop_first() =~= vws.skip(i + 1));
        }
        match view_region_exec(&views[i]) {
            Some((b, p)) => {
                if b == u64::MAX {
                    proof {
                        lemma_group_count_nonneg(vws.skip(i + 1));
                    }
                    return None;
                }
                if b + 1 > acc {
                    acc = b + 1;
                }
            },
            None => {},
        }
        i += 1;
    }
    proof {
        assert(vws.skip(n as int) =~= Seq::<JsonView>::empty());
    }
    Some(acc)
}

pub proof fn lemma_group_count_nonneg(views: Seq<JsonView>)
    ensures
        group_count(views) >= 0,
    decreases views.len(),
{
    if views.len() > 0 {
        lemma_group_count_nonneg(views.drop_first());
    }
}

#[verifier::loop_isolation(false)]
fn regions_for_exec(views: &Vec<Json>, b: u64) -> (r: Vec<BufferViewRegion>)
    ensures
        region_pairs(r@) == regions_of(arr_view(views@), b),
{
    proof {
        lemma_arr_view(views@);
    }
    let ghost vws = arr_view(views@);
    let n = views.len();
    let mut out: Vec<BufferViewRegion> = Vec::new();
    let mut i: usize = 0;
    proof {
        assert(vws.skip(0) =~= vws);
        assert(region_pairs(out@) =~= Seq::<(u64, u64)>::empty());
    }
    while i < n
        invariant
            0 <= i <= n,
            region_pairs(out@) + regions_of(vws.skip(i as int), b) == regions_of(vws, b),
        decreases n - i,
    {
        proof {
            assert(vws.skip(i as int)[0] == vws[i as int]);
            assert(vws.skip(i as int).drop_first() =~= vws.skip(i + 1));
        }
        let ghost out0 = region_pairs(out@);
        match view_region_exec(&views[i]) {
            Some((vb, (o, l))) => {
                if vb == b {
                    out.push(BufferViewRegion { byte_offset: o, byte_length: l });
                    proof {
                        assert(region_pairs(out@) =~= out0.push((o, l)));
                        assert(region_pairs(out@) + regions_of(vws.skip(i + 1), b) =~= out0
                            + regions_of(vws.skip(i as int), b));
                    }
                }
            },
            None => {},
        }
        i += 1;
    }
    proof {
        assert(vws.skip(n as int) =~= Seq::<JsonView>::empty());
        assert(region_pairs(out@) =~= regions_of(vws, b));
    }
    out
}

/// Every region on any one buffer comes from some view, so it obeys the same
/// bound.
pub proof fn lemma_regions_of_bound(views: Seq<JsonView>, b: u64)
    requires
        regions_bounded(views),
    ensures
        forall|k: int|
            0 <= k < regions_of(views, b).len() ==> (#[trigger] regions_of(views, b)[k]).0
                + regions_of(views, b)[k].1 <= u32::MAX,
    decreases views.len(),
{
    if views.len() > 0 {
        assert(regions_bounded(views.drop_first())) by {
            assert(forall|i: int|
                0 <= i < views.len() - 1 ==> #[trigger] views.drop_first()[i] == views[i + 1]);
        }
        lemma_regions_of_bound(views.drop_first(), b);
        let ro = regions_of(views, b);
        let rest = regions_of(views.drop_first(), b);
        match view_region(views[0]) {
            Some((vb, p)) => {
                if vb == b {
                    assert(ro =~= seq![p] + rest);
                    assert forall|k: int| 0 <= k < ro.len() implies (#[trigger] ro[k]).0 + ro[k].1
                        <= u32::MAX by {
                        if k == 0 {
                            assert(view_region(views[0]) == Some((vb, p)));
                            assert(p.0 + p.1 <= u32::MAX);
                        } else {
                            assert(ro[k] == rest[k - 1]);
                        }
                    }
                } else {
                    assert(ro =~= rest);
                    assert(forall|k: int|
                        0 <= k < ro.len() ==> #[trigger] ro[k] == rest[k]);
                }
            },
            None => {
                assert(ro =~= rest);
                assert(forall|k: int| 0 <= k < ro.len() ==> #[trigger] ro[k] == rest[k]);
            },
        }
    }
}

/// Sorting keeps every region, so it keeps the bound, and yields an ordered
/// list.
pub proof fn lemma_sort_pairs_bound(rs: Seq<(u64, u64)>)
    requires
        forall|k: int| 0 <= k < rs.len() ==> (#[trigger] rs[k]).0 + rs[k].1 <= u32::MAX,
    ensures
        forall|k: int|
            0 <= k < sort_pairs(rs).len() ==> (#[trigger] sort_pairs(rs)[k]).0 + sort_pairs(
                rs,
            )[k].1 <= u32::MAX,
        sort_pairs(rs).len() == rs.len(),
        sorted_by(sort_pairs(rs), |x: (u64, u64), y: (u64, u64)| region_leq(x, y)),
{
    broadcast use vstd::seq_lib::group_to_multiset_ensures;

    let leq = |x: (u64, u64), y: (u64, u64)| region_leq(x, y);
    rs.lemma_sort_by_ensures(leq);
    assert(sort_pairs(rs).to_multiset().len() == rs.to_multiset().len());
    assert forall|k: int|
        0 <= k < sort_pairs(rs).len() implies (#[trigger] sort_pairs(rs)[k]).0 + sort_pairs(
        rs,
    )[k].1 <= u32::MAX by {
        let x = sort_pairs(rs)[k];
        assert(sort_pairs(rs).contains(x));
        assert(rs.contains(x)) by {
            if !rs.contains(x) {
                assert(!sort_pairs(rs).contains(x));
            }
        }
        let q = choose|q: int| 0 <= q < rs.len() && rs[q] == x;
    }
}

/// Regions as mathematical pairs.
pub open spec fn pairs_int(rs: Seq<BufferViewRegion>) -> Seq<(int, int)> {
    rs.map_values(|r: BufferViewRegion| (r.byte_offset as int, r.byte_length as int))
}

/// Plan one buffer: its gap list, its surviving regions, their total size,
/// and whether any view claims a region on it.
#[verifier::loop_isolation(false)]
fn plan_buffer(views: &Vec<Json>, b: u64) -> (r: (
    Vec<BufferViewRegion>,
    Vec<BufferViewRegion>,
    u64,
    bool,
))
    requires
        regions_bounded(arr_view(views@)),
    ensures
        pairs_int(r.1@) == dels_for(arr_view(views@), b),
        pairs_int(r.0@) == survivors_for(arr_view(views@), b),
        r.2 as int == sum_lens(survivors_for(arr_view(views@), b)),
        r.2 <= u32::MAX as u64 + 3,
        r.3 == (sorted_regions(arr_view(views@), b).len() > 0),
{
    proof {
        lemma_arr_view(views@);
    }
    let ghost vws = arr_view(views@);
    let regs = regions_for_exec(views, b);
    let sregs = sort_regions_exec(regs);
    let ghost sp = sorted_regions(vws, b);
    proof {
        lemma_regions_of_bound(vws, b);
        lemma_sort_pairs_bound(regions_of(vws, b));
        assert(region_pairs(sregs@) == sp);
        assert forall|k: int|
            0 <= k < sregs@.len() implies (#[trigger] sregs@[k].pair()).0 + sregs@[k].pair().1
                <= u32::MAX by {
            assert(sp[k] == region_pairs(sregs@)[k]);
            assert(sp[k] == sregs@[k].pair());
        }
    }
    let m = sregs.len();
    let mut dels: Vec<BufferViewRegion> = Vec::new();
    let mut next: u64 = 0;
    let mut q: usize = 0;
    proof {
        assert(sp.skip(0) =~= sp);
        assert(pairs_int(dels@) =~= Seq::<(int, int)>::empty());
    }
    while q < m
        invariant
            0 <= q <= m,
            next <= u32::MAX,
            forall|i: int|
                0 <= i < dels@.len() ==> (#[trigger] dels@[i]).byte_offset + dels@[i].byte_length
                    <= next,
            deleted_from(sp, 0) == pairs_int(dels@) + deleted_from(sp.skip(q as int), next as int),
        decreases m - q,
    {
        proof {
            assert(sp.skip(q as int)[0] == sp[q as int]);
            assert(sp.skip(q as int).drop_first() =~= sp.skip(q + 1));
            assert(sp[q as int] == sregs@[q as int].pair());
        }
        let o = sregs[q].byte_offset;
        let l = sregs[q].byte_length;
        let a = (next + 7) / 8 * 8;
        let b8 = o / 8 * 8;
        proof {
            vstd::arithmetic::div_mod::lemma_fundamental_div_mod(next as int + 7, 8);
            vstd::arithmetic::div_mod::lemma_fundamental_div_mod(o as int, 8);
        }
        let ghost dels0 = pairs_int(dels@);
        if a < b8 {
            dels.push(BufferViewRegion { byte_offset: a, byte_length: b8 - a });
            proof {
                assert(pairs_int(dels@) =~= dels0.push((a as int, b8 as int - a as int)));
            }
        }
        if next < o + l {
            next = o + l;
        }
        q += 1;
    }
    proof {
        assert(sp.skip(m as int) =~= Seq::<(u64, u64)>::empty());
        assert(pairs_int(dels@) =~= dels_for(vws, b));
    }
    if m == 0 {
        proof {
            assert(pairs_int(Seq::<BufferViewRegion>::empty()) =~= Seq::<(int, int)>::empty());
            assert(survivors_for(vws, b) =~= Seq::<(int, int)>::empty());
        }
        let e: Vec<BufferViewRegion> = Vec::new();
        proof {
            assert(pairs_int(e@) =~= survivors_for(vws, b));
        }
        return (e, dels, 0, false);
    }
    let lasto = sregs[m - 1].byte_offset;
    let lastl = sregs[m - 1].byte_length;
    proof {
        assert(sregs@[m - 1].pair().0 + sregs@[m - 1].pair().1 <= u32::MAX);
        assert(lasto + lastl <= u32::MAX);
    }
    let buflen = (lasto + lastl + 3) / 4 * 4;
    proof {
        vstd::arithmetic::div_mod::lemma_fundamental_div_mod(lasto as int + lastl as int + 3, 4);
        assert(sp.last() == sregs@[m - 1].pair());
        assert(buflen as int == buffer_len_of(sp));
        lemma_deleted_chained(sp, 0);
    }
    let ghost dints = dels_for(vws, b);
    let dn = dels.len();
    let mut survs: Vec<BufferViewRegion> = Vec::new();
    let mut cursor: u64 = 0;
    let mut sum: u64 = 0;
    let mut k: usize = 0;
    proof {
        assert(dints.skip(0) =~= dints);
        assert(pairs_int(survs@) =~= Seq::<(int, int)>::empty());
    }
    while k < dn
        invariant
            0 <= k <= dn,
            dn == dels@.len(),
            sum <= cursor,
            cursor <= u32::MAX,
            chained(dints.skip(k as int), cursor as int),
            sum as int == sum_lens(pairs_int(survs@)),
            survive_walk(dints, 0, buflen as int) == pairs_int(survs@) + survive_walk(
                dints.skip(k as int),
                cursor as int,
                buflen as int,
            ),
        decreases dn - k,
    {
        proof {
            assert(dints.skip(k as int)[0] == dints[k as int]);
            assert(dints[k as int] == (dels@[k as int].byte_offset as int,
                dels@[k as int].byte_length as int));
            assert(dints.skip(k as int).drop_first() =~= dints.skip(k + 1));
        }
        let d_off = dels[k].byte_offset;
        let d_len = dels[k].byte_length;
        let ghost survs0 = pairs_int(survs@);
        if cursor < d_off {
            survs.push(BufferViewRegion { byte_offset: cursor, byte_length: d_off - cursor });
            sum = sum + (d_off - cursor);
            proof {
                assert(pairs_int(survs@) =~= survs0.push((cursor as int, d_off as int
                    - cursor as int)));
                lemma_sum_lens_push(survs0, (cursor as int, d_off as int - cursor as int));
            }
        }
        cursor = d_off + d_len;
        k += 1;
    }
    proof {
        assert(dints.skip(dn as int) =~= Seq::<(int, int)>::empty());
    }
    let ghost survs1 = pairs_int(survs@);
    if buflen > cursor {
        survs.push(BufferViewRegion { byte_offset: cursor, byte_length: buflen - cursor });
        sum = sum + (buflen - cursor);
        proof {
            assert(pairs_int(survs@) =~= survs1.push((cursor as int, buflen as int
                - cursor as int)));
            lemma_sum_lens_push(survs1, (cursor as int, buflen as int - cursor as int));
        }
    }
    proof {
        assert(pairs_int(survs@) =~= survivors_for(vws, b));
    }
    (survs, dels, sum, true)
}

pub proof fn lemma_sum_lens_push(rs: Seq<(int, int)>, x: (int, int))
    ensures
        sum_lens(rs.push(x)) == sum_lens(rs) + x.1,
    decreases rs.len(),
{
    if rs.len() == 0 {
        assert(rs.push(x).drop_first() =~= rs);
    } else {
        assert(rs.push(x).drop_first() =~= rs.drop_first().push(x));
        lemma_sum_lens_push(rs.drop_first(), x);
    }
}

pub proof fn lemma_shift_nonneg(dels: Seq<(int, int)>, o: int)
    requires
        forall|i: int| 0 <= i < dels.len() ==> (#[trigger] dels[i]).1 >= 0,
    ensures
        shift_before(dels, o) >= 0,
    decreases dels.len(),
{
    if dels.len() > 0 {
        assert(forall|i: int|
            0 <= i < dels.len() - 1 ==> #[trigger] dels.drop_first()[i] == dels[i + 1]);
        lemma_shift_nonneg(dels.drop_first(), o);
    }
}

/// The gap bytes that precede offset `o`; never more than `o` itself.
#[verifier::loop_isolation(false)]
fn shift_for(dels: &Vec<BufferViewRegion>, o: u64) -> (r: u64)
    requires
        chained(pairs_int(dels@), 0),
    ensures
        r as int == shift_before(pairs_int(dels@), o as int),
        r <= o,
{
    let ghost dints = pairs_int(dels@);
    proof {
        lemma_shift_le(dints, 0, o as int);
        lemma_chained_lens(dints, 0);
    }
    let n = dels.len();
    let mut sum: u64 = 0;
    let mut k: usize = 0;
    proof {
        assert(dints.skip(0) =~= dints);
    }
    while k < n
        invariant
            0 <= k <= n,
            sum as int + shift_before(dints.skip(k as int), o as int) == shift_before(
                dints,
                o as int,
            ),
            sum <= o,
        decreases n - k,
    {
        proof {
            assert(dints.skip(k as int)[0] == dints[k as int]);
            assert(dints[k as int] == (dels@[k as int].byte_offset as int,
                dels@[k as int].byte_length as int));
            assert(dints.skip(k as int).drop_first() =~= dints.skip(k + 1));
            assert(forall|i: int|
                0 <= i < dints.len() - k - 1 ==> #[trigger] dints.skip(k + 1)[i] == dints[k + 1
                    + i]);
            lemma_shift_nonneg(dints.skip(k + 1), o as int);
        }
        let d_off = dels[k].byte_offset;
        let d_len = dels[k].byte_length;
        if d_off <= u64::MAX - d_len && d_off + d_len <= o {
            sum = sum + d_len;
        }
        k += 1;
    }
    proof {
        assert(dints.skip(n as int) =~= Seq::<(int, int)>::empty());
    }
    sum
}

/// Chained gap lists have positive sizes.
pub proof fn lemma_chained_lens(dels: Seq<(int, int)>, base: int)
    requires
        chained(dels, base),
    ensures
        forall|i: int| 0 <= i < dels.len() ==> (#[trigger] dels[i]).1 > 0,
    decreases dels.len(),
{
    if dels.len() > 0 {
        lemma_chained_lens(dels.drop_first(), dels[0].0 + dels[0].1);
        assert forall|i: int| 0 <= i < dels.len() implies (#[trigger] dels[i]).1 > 0 by {
            if i > 0 {
                assert(dels.drop_first()[i - 1] == dels[i]);
            }
        }
    }
}

pub proof fn lemma_plans_total_concat(a: Seq<Seq<(u64, u64)>>, b: Seq<Seq<(u64, u64)>>)
    ensures
        plans_total(a + b) == plans_total(a) + plans_total(b),
    decreases a.len(),
{
    if a.len() == 0 {
        assert(a + b =~= b);
    } else {
        assert((a + b).drop_first() =~= a.drop_first() + b);
        assert((a + b)[0] == a[0]);
        lemma_plans_total_concat(a.drop_first(), b);
    }
}

pub proof fn lemma_plan_lens_pairs(rs: Seq<BufferViewRegion>)
    ensures
        plan_lens(region_pairs(rs)) == sum_lens(pairs_int(rs)),
    decreases rs.len(),
{
    if rs.len() > 0 {
        assert(region_pairs(rs).drop_first() =~= region_pairs(rs.drop_first()));
        assert(pairs_int(rs).drop_first() =~= pairs_int(rs.drop_first()));
        lemma_plan_lens_pairs(rs.drop_first());
    }
}

/// Rewrite every buffer view's offset against the gap lists, as
/// [`rewrite_views`] states.
#[verifier::loop_isolation(false)]
fn rewrite_views_exec(
    vs: Vec<Json>,
    dels_by: &Vec<Vec<BufferViewRegion>>,
    views0: Ghost<Seq<JsonView>>,
) -> (r: Vec<Json>)
    requires
        arr_view(vs@) == views0@,
        dels_by@.len() == group_count(views0@),
        forall|q: int|
            0 <= q < dels_by@.len() ==> pairs_int(#[trigger] dels_by@[q]@) == dels_for(
                views0@,
                q as u64,
            ) && chained(pairs_int(dels_by@[q]@), 0),
    ensures
        arr_view(r@) == rewrite_views(views0@),
{
    let ghost vws = views0@;
    let ghost gcount = group_count(vws);
    proof {
        lemma_arr_view(vs@);
    }
    let mut rest = vs;
    let mut out: Vec<Json> = Vec::new();
    let mut i: usize = 0;
    let n = rest.len();
    proof {
        assert(arr_view(out@) =~= Seq::<JsonView>::empty());
    }
    while rest.len() > 0
        invariant
            i + rest@.len() == n,
            n == vws.len(),
            arr_view(rest@) =~= vws.skip(i as int),
            arr_view(out@) =~= rewrite_views(vws).subrange(0, i as int),
        decreases rest@.len(),
    {
        let ghost rest0 = arr_view(rest@);
        let ghost out0 = arr_view(out@);
        proof {
            lemma_arr_view(rest@);
            lemma_arr_view(out@);
            assert(rest0[0] == vws[i as int]);
        }
        let v = rest.remove(0);
        let nv = match view_num_exec(&v, "buffer") {
            Some(b) => {
                if b < dels_by.len() as u64 {
                    let o = match view_num_exec(&v, "byteOffset") {
                        Some(o) => o,
                        None => 0,
                    };
                    let sh = shift_for(&dels_by[b as usize], o);
                    v.put("byteOffset", Json::Num(crate::numtext::format_u64(o - sh)))
                } else {
                    v
                }
            },
            None => v,
        };
        proof {
            assert(nv@ == rewrite_one(vws[i as int], vws, gcount));
        }
        out.push(nv);
        i += 1;
        proof {
            lemma_arr_view(rest@);
            lemma_arr_view(out@);
            assert(arr_view(rest@) =~= rest0.drop_first());
            assert(arr_view(rest@) =~= vws.skip(i as int));
            assert(arr_view(out@) =~= out0.push(rewrite_one(vws[i - 1], vws, gcount)));
            assert(arr_view(out@) =~= rewrite_views(vws).subrange(0, i as int));
        }
    }
    proof {
        assert(arr_view(out@) =~= rewrite_views(vws));
    }
    out
}

/// Update every buffer's length to its surviving total, as
/// [`update_buffers`] states.
#[verifier::loop_isolation(false)]
fn update_buffers_exec(
    bufs: Vec<Json>,
    sums: &Vec<u64>,
    haves: &Vec<bool>,
    views0: Ghost<Seq<JsonView>>,
) -> (r: Vec<Json>)
    requires
        sums@.len() == group_count(views0@),
        haves@.len() == group_count(views0@),
        forall|q: int|
            0 <= q < sums@.len() ==> #[trigger] sums@[q] as int == sum_lens(
                survivors_for(views0@, q as u64),
            ),
        forall|q: int|
            0 <= q < haves@.len() ==> #[trigger] haves@[q] == (sorted_regions(
                views0@,
                q as u64,
            ).len() > 0),
    ensures
        arr_view(r@) == update_buffers(arr_view(bufs@), views0@),
{
    let ghost vws = views0@;
    let ghost bv = arr_view(bufs@);
    proof {
        lemma_arr_view(bufs@);
    }
    let mut rest = bufs;
    let mut out: Vec<Json> = Vec::new();
    let mut i: usize = 0;
    let n = rest.len();
    proof {
        assert(arr_view(out@) =~= Seq::<JsonView>::empty());
    }
    while rest.len() > 0
        invariant
            i + rest@.len() == n,
            n == bv.len(),
            arr_view(rest@) =~= bv.skip(i as int),
            arr_view(out@) =~= update_buffers(bv, vws).subrange(0, i as int),
        decreases rest@.len(),
    {
        let ghost rest0 = arr_view(rest@);
        let ghost out0 = arr_view(out@);
        proof {
            lemma_arr_view(rest@);
            lemma_arr_view(out@);
            assert(rest0[0] == bv[i as int]);
        }
        let v = rest.remove(0);
        let nv = if i < sums.len() && haves[i] {
            v.put("byteLength", Json::Num(crate::numtext::format_u64(sums[i])))
        } else {
            v
        };
        proof {
            assert(nv@ == update_buffers(bv, vws)[i as int]);
        }
        out.push(nv);
        i += 1;
        proof {
            lemma_arr_view(rest@);
            lemma_arr_view(out@);
            assert(arr_view(rest@) =~= rest0.drop_first());
            assert(arr_view(rest@) =~= bv.skip(i as int));
            assert(arr_view(out@) =~= out0.push(update_buffers(bv, vws)[i - 1]));
            assert(arr_view(out@) =~= update_buffers(bv, vws).subrange(0, i as int));
        }
    }
    proof {
        assert(arr_view(out@) =~= update_buffers(bv, vws));
    }
    out
}

/// Plan the binary relocation of a document. First the buffers themselves
/// are swept: unreferenced buffers go, references are renumbered, and the
/// surviving original chunk ordinals are kept for the relocator. Then the
/// gaps between buffer views are computed per buffer, every view's offset is
/// rewritten, and every buffer's length becomes its surviving total. A
/// document whose regions or totals do not fit the container's 32-bit sizes
/// is rejected.
#[verifier::loop_isolation(false)]
#[verifier::rlimit(60)]
pub fn relocate_buffers(gltf: Json) -> (r: Result<
    (Json, BufferRelocator, Vec<crate::cleaner::SweepWarning>),
    VrmError,
>)
    ensures
        match r {
            Ok(t) => ({
                let j1 = crate::sweep::sweep_spec(gltf@, "buffers"@, crate::cleaner::buffer_paths());
                let views = views_of(j1);
                &&& plan_fits(views)
                &&& t.0@ == plan_doc(j1)
                &&& t.1.remaining_chunk_indexes@ == crate::sweep::sweep_table(
                    gltf@,
                    crate::cleaner::buffer_paths(),
                )
                &&& crate::paths::sorted_strict(t.1.remaining_chunk_indexes@)
                &&& t.1.plans() == plan_spec(views)
                &&& t.1.wf()
                &&& crate::cleaner::warn_texts(t.2@) == crate::sweep::bads(
                    crate::sweep::sites_multi(gltf@, crate::cleaner::buffer_paths()),
                )
                &&& crate::cleaner::warn_kinds(t.2@) == crate::cleaner::kind_marks(
                    "/buffers"@,
                    crate::sweep::bads(
                        crate::sweep::sites_multi(gltf@, crate::cleaner::buffer_paths()),
                    ).len(),
                )
            }),
            Err(e) => e is TooLarge && !plan_fits(
                views_of(
                    crate::sweep::sweep_spec(gltf@, "buffers"@, crate::cleaner::buffer_paths()),
                ),
            ),
        },
{
    let paths = crate::cleaner::buffer_paths_exec();
    let (g1, used, bad) = crate::sweep::sweep_resources(gltf, "buffers", &paths);
    let mut warns: Vec<crate::cleaner::SweepWarning> = Vec::new();
    crate::cleaner::push_warns(&mut warns, "/buffers", bad);
    let ghost j1v = g1@;
    let ghost vws = views_of(j1v);

    let mut plans_exec: Vec<Vec<BufferViewRegion>> = Vec::new();
    let mut dels_by: Vec<Vec<BufferViewRegion>> = Vec::new();
    let mut sums: Vec<u64> = Vec::new();
    let mut haves: Vec<bool> = Vec::new();
    let mut total: u64 = 0;
    let mut gcount_us: usize = 0;
    let mut has_views = false;

    match g1.get("bufferViews") {
        Some(vj) => match vj {
            Json::Arr(views) => {
                has_views = true;
                proof {
                    lemma_arr_view(views@);
                    assert(vws =~= arr_view(views@));
                }
                if !check_bounds(views) {
                    return Err(VrmError::TooLarge);
                }
                let nv = views.len();
                let gc = match group_count_exec(views) {
                    Some(g) => g,
                    None => {
                        proof {
                            assert(vws.len() == nv as int);
                        }
                        return Err(VrmError::TooLarge);
                    },
                };
                if gc > nv as u64 {
                    return Err(VrmError::TooLarge);
                }
                gcount_us = gc as usize;
                let ghost pspec = plan_spec(vws);
                proof {
                    lemma_group_count_nonneg(vws);
                    assert(pspec.len() == gcount_us as int);
                    assert(pspec.subrange(0, 0) =~= Seq::<Seq<(u64, u64)>>::empty());
                }
                let mut b: usize = 0;
                while b < gcount_us
                    invariant
                        0 <= b <= gcount_us,
                        plans_exec@.len() == b,
                        dels_by@.len() == b,
                        sums@.len() == b,
                        haves@.len() == b,
                        total as int == plans_total(pspec.subrange(0, b as int)),
                        total <= u32::MAX,
                        forall|q: int|
                            0 <= q < b ==> region_pairs(#[trigger] plans_exec@[q]@)
                                == pspec[q],
                        forall|q: int|
                            0 <= q < b ==> pairs_int(#[trigger] dels_by@[q]@) == dels_for(
                                vws,
                                q as u64,
                            ) && chained(pairs_int(dels_by@[q]@), 0),
                        forall|q: int|
                            0 <= q < b ==> #[trigger] sums@[q] as int == sum_lens(
                                survivors_for(vws, q as u64),
                            ),
                        forall|q: int|
                            0 <= q < b ==> #[trigger] haves@[q] == (sorted_regions(
                                vws,
                                q as u64,
                            ).len() > 0),
                    decreases gcount_us - b,
                {
                    let (survs, dels, sum, have) = plan_buffer(views, b as u64);
                    proof {
                        lemma_deleted_chained(sorted_regions(vws, b as u64), 0);
                        lemma_plan_lens_pairs(survs@);
                        assert(region_pairs(survs@) =~= pspec[b as int]) by {
                            assert(pairs_int(survs@) == survivors_for(vws, b as u64));
                        }
                        assert(pspec.subrange(0, b + 1) =~= pspec.subrange(0, b as int).push(
                            pspec[b as int],
                        ));
                        lemma_plans_total_push(pspec.subrange(0, b as int), pspec[b as int]);
                        assert(plan_lens(pspec[b as int]) == sum as int);
                    }
                    if sum > u32::MAX as u64 - 8 || total > u32::MAX as u64 - 8 - sum {
                        proof {
                            assert(plans_total(pspec.subrange(0, b + 1)) > u32::MAX);
                            lemma_plans_total_prefix(pspec, b + 1);
                        }
                        return Err(VrmError::TooLarge);
                    }
                    total = total + 8 + sum;
                    plans_exec.push(survs);
                    dels_by.push(dels);
                    sums.push(sum);
                    haves.push(have);
                    b += 1;
                }
                proof {
                    assert(pspec.subrange(0, gcount_us as int) =~= pspec);
                }
            },
            _ => {
                proof {
                    assert(vws =~= Seq::<JsonView>::empty());
                }
            },
        },
        None => {
            proof {
                assert(vws =~= Seq::<JsonView>::empty());
            }
        },
    }
    proof {
        if !has_views {
            assert(vws =~= Seq::<JsonView>::empty());
            assert(group_count(vws) == 0);
            assert(plan_spec(vws).len() == 0);
            assert(plans_total(plan_spec(vws)) == 0);
        }
        assert(plan_fits(vws));
    }

    // Rewrite the buffer views' offsets.
    let doc2 = match g1 {
        Json::Obj(mut m) => {
            let ghost entries = obj_view(m@);
            proof {
                lemma_obj_view(m@);
            }
            match find_key(&m, "bufferViews") {
                Some(idx) => {
                    let (kstr, val) = m.remove(idx);
                    proof {
                        lemma_obj_find_at(entries, "bufferViews"@, idx as int);
                    }
                    match val {
                        Json::Arr(vs) => {
                            proof {
                                lemma_arr_view(vs@);
                                assert(arr_view(vs@) == vws);
                            }
                            let vs2 = rewrite_views_exec(vs, &dels_by, Ghost(vws));
                            m.insert(idx, (kstr, Json::Arr(vs2)));
                            proof {
                                lemma_obj_view(m@);
                                lemma_obj_put_at(
                                    entries,
                                    "bufferViews"@,
                                    JsonView::Arr(rewrite_views(vws)),
                                    idx as int,
                                );
                                assert(obj_view(m@) =~= obj_put(
                                    entries,
                                    "bufferViews"@,
                                    JsonView::Arr(rewrite_views(vws)),
                                ));
                            }
                            Json::Obj(m)
                        },
                        other => {
                            m.insert(idx, (kstr, other));
                            proof {
                                lemma_obj_view(m@);
                                assert(obj_view(m@) =~= entries);
                            }
                            Json::Obj(m)
                        },
                    }
                },
                None => {
                    proof {
                        lemma_obj_find_missing(entries, "bufferViews"@);
                    }
                    Json::Obj(m)
                },
            }
        },
        other => other,
    };

    // Update the buffers' lengths.
    let doc3 = match doc2 {
        Json::Obj(mut m) => {
            let ghost entries = obj_view(m@);
            proof {
                lemma_obj_view(m@);
            }
            match find_key(&m, "buffers") {
                Some(idx) => {
                    let (kstr, val) = m.remove(idx);
                    proof {
                        lemma_obj_find_at(entries, "buffers"@, idx as int);
                    }
                    match val {
                        Json::Arr(bs) => {
                            let ghost bsv = arr_view(bs@);
                            let bs2 = update_buffers_exec(bs, &sums, &haves, Ghost(vws));
                            m.insert(idx, (kstr, Json::Arr(bs2)));
                            proof {
                                lemma_obj_view(m@);
                                lemma_obj_put_at(
                                    entries,
                                    "buffers"@,
                                    JsonView::Arr(update_buffers(bsv, vws)),
                                    idx as int,
                                );
                                assert(obj_view(m@) =~= obj_put(
                                    entries,
                                    "buffers"@,
                                    JsonView::Arr(update_buffers(bsv, vws)),
                                ));
                            }
                            Json::Obj(m)
                        },
                        other => {
                            m.insert(idx, (kstr, other));
                            proof {
                                lemma_obj_view(m@);
                                assert(obj_view(m@) =~= entries);
                            }
                            Json::Obj(m)
                        },
                    }
                },
                None => {
                    proof {
                        lemma_obj_find_missing(entries, "buffers"@);
                    }
                    Json::Obj(m)
                },
            }
        },
        other => other,
    };
    proof {
        assert(doc3@ == plan_doc(j1v));
    }

    let rel = BufferRelocator {
        remaining_chunk_indexes: used.v,
        remaining_buffer_view_regions_by_index: plans_exec,
    };
    proof {
        assert(rel.plans() =~~= plan_spec(vws));
        assert(plans_total(rel.plans()) == total as int);
    }
    Ok((doc3, rel, warns))
}

pub proof fn lemma_plans_total_push(a: Seq<Seq<(u64, u64)>>, x: Seq<(u64, u64)>)
    ensures
        plans_total(a.push(x)) == plans_total(a) + 8 + plan_lens(x),
    decreases a.len(),
{
    if a.len() == 0 {
        assert(a.push(x).drop_first() =~= a);
    } else {
        assert(a.push(x).drop_first() =~= a.drop_first().push(x));
        lemma_plans_total_push(a.drop_first(), x);
    }
}

pub proof fn lemma_plans_total_prefix(plans: Seq<Seq<(u64, u64)>>, k: int)
    requires
        0 <= k <= plans.len(),
    ensures
        plans_total(plans.subrange(0, k)) <= plans_total(plans),
{
    assert(plans =~= plans.subrange(0, k) + plans.skip(k));
    lemma_plans_total_concat(plans.subrange(0, k), plans.skip(k));
    lemma_plans_total_nonneg_gen(plans.skip(k));
}

pub proof fn lemma_plans_total_nonneg_gen(plans: Seq<Seq<(u64, u64)>>)
    ensures
        plans_total(plans) >= 0,
    decreases plans.len(),
{
    if plans.len() > 0 {
        lemma_plan_lens_nonneg(plans[0]);
        lemma_plans_total_nonneg_gen(plans.drop_first());
    }
}

/// Gaps opened from cursor `next` all start at or after `m` when `next`
/// does.
proof fn lemma_gaps_after(rs: Seq<(u64, u64)>, next: int, m: int)
    requires
        next >= m,
        next >= 0,
    ensures
        forall|d: int|
            0 <= d < deleted_from(rs, next).len() ==> (#[trigger] deleted_from(rs, next)[d]).0
                >= m,
    decreases rs.len(),
{
    if rs.len() > 0 {
        let a = align_up(next, 8);
        let b = align_dn(rs[0].0 as int, 8);
        let next2 = if next < rs[0].0 + rs[0].1 {
            rs[0].0 + rs[0].1 as int
        } else {
            next
        };
        assert(a >= next) by {
            vstd::arithmetic::div_mod::lemma_fundamental_div_mod(next + 7, 8);
        }
        lemma_gaps_after(rs.drop_first(), next2, m);
        let dels = deleted_from(rs, next);
        let rest = deleted_from(rs.drop_first(), next2);
        assert forall|d: int| 0 <= d < dels.len() implies (#[trigger] dels[d]).0 >= m by {
            if a < b {
                if d == 0 {
                } else {
                    assert(dels[d] == rest[d - 1]);
                }
            } else {
                assert(dels =~= rest);
                assert(dels[d] == rest[d]);
            }
        }
    }
}

/// Every gap ends at or before any bound the region offsets obey.
proof fn lemma_gaps_below(rs: Seq<(u64, u64)>, next: int, cap: int)
    requires
        next >= 0,
        forall|q: int| 0 <= q < rs.len() ==> (#[trigger] rs[q]).0 <= cap,
    ensures
        forall|d: int|
            0 <= d < deleted_from(rs, next).len() ==> (#[trigger] deleted_from(rs, next)[d]).0
                + deleted_from(rs, next)[d].1 <= cap,
    decreases rs.len(),
{
    if rs.len() > 0 {
        let a = align_up(next, 8);
        let b = align_dn(rs[0].0 as int, 8);
        let next2 = if next < rs[0].0 + rs[0].1 {
            rs[0].0 + rs[0].1 as int
        } else {
            next
        };
        assert(b <= rs[0].0) by {
            vstd::arithmetic::div_mod::lemma_fundamental_div_mod(rs[0].0 as int, 8);
        }
        assert(forall|q: int|
            0 <= q < rs.len() - 1 ==> #[trigger] rs.drop_first()[q] == rs[q + 1]);
        lemma_gaps_below(rs.drop_first(), next2, cap);
        let dels = deleted_from(rs, next);
        let rest = deleted_from(rs.drop_first(), next2);
        assert forall|d: int| 0 <= d < dels.len() implies (#[trigger] dels[d]).0 + dels[d].1
            <= cap by {
            if a < b {
                if d == 0 {
                } else {
                    assert(dels[d] == rest[d - 1]);
                }
            } else {
                assert(dels =~= rest);
                assert(dels[d] == rest[d]);
            }
        }
    }
}

/// Every gap lies entirely before the region at `p`, or entirely after it.
proof fn lemma_gaps_avoid(rs: Seq<(u64, u64)>, next: int, p: int)
    requires
        next >= 0,
        0 <= p < rs.len(),
        sorted_by(rs, |x: (u64, u64), y: (u64, u64)| region_leq(x, y)),
    ensures
        forall|d: int|
            0 <= d < deleted_from(rs, next).len() ==> ((#[trigger] deleted_from(rs, next)[d]).0
                + deleted_from(rs, next)[d].1 <= rs[p].0 || deleted_from(rs, next)[d].0 >= rs[p].0
                + rs[p].1),
    decreases rs.len(),
{
    let a = align_up(next, 8);
    let b = align_dn(rs[0].0 as int, 8);
    let next2 = if next < rs[0].0 + rs[0].1 {
        rs[0].0 + rs[0].1 as int
    } else {
        next
    };
    assert(b <= rs[0].0) by {
        vstd::arithmetic::div_mod::lemma_fundamental_div_mod(rs[0].0 as int, 8);
    }
    let dels = deleted_from(rs, next);
    let rest = deleted_from(rs.drop_first(), next2);
    if p == 0 {
        lemma_gaps_after(rs.drop_first(), next2, rs[0].0 + rs[0].1 as int);
        assert forall|d: int| 0 <= d < dels.len() implies ((#[trigger] dels[d]).0 + dels[d].1
            <= rs[p].0 || dels[d].0 >= rs[p].0 + rs[p].1) by {
            if a < b {
                if d == 0 {
                } else {
                    assert(dels[d] == rest[d - 1]);
                }
            } else {
                assert(dels =~= rest);
                assert(dels[d] == rest[d]);
            }
        }
    } else {
        assert(forall|q: int|
            0 <= q < rs.len() - 1 ==> #[trigger] rs.drop_first()[q] == rs[q + 1]);
        assert(sorted_by(
            rs.drop_first(),
            |x: (u64, u64), y: (u64, u64)| region_leq(x, y),
        ));
        lemma_gaps_avoid(rs.drop_first(), next2, p - 1);
        let leq = |x: (u64, u64), y: (u64, u64)| region_leq(x, y);
        assert(leq(rs[0], rs[p]));
        assert forall|d: int| 0 <= d < dels.len() implies ((#[trigger] dels[d]).0 + dels[d].1
            <= rs[p].0 || dels[d].0 >= rs[p].0 + rs[p].1) by {
            if a < b {
                if d == 0 {
                    assert(dels[0].0 + dels[0].1 == b <= rs[0].0 <= rs[p].0);
                } else {
                    assert(dels[d] == rest[d - 1]);
                    assert(rs.drop_first()[p - 1] == rs[p]);
                }
            } else {
                assert(dels =~= rest);
                assert(dels[d] == rest[d]);
                assert(rs.drop_first()[p - 1] == rs[p]);
            }
        }
    }
}

/// Chained gaps bounded by `cap` total at most `cap - base`.
proof fn lemma_chained_sum(dels: Seq<(int, int)>, base: int, cap: int)
    requires
        chained(dels, base),
        forall|d: int| 0 <= d < dels.len() ==> (#[trigger] dels[d]).0 + dels[d].1 <= cap,
    ensures
        sum_lens(dels) <= (if cap - base >= 0 { cap - base } else { 0int }),
        sum_lens(dels) >= 0,
    decreases dels.len(),
{
    if dels.len() > 0 {
        let end0 = dels[0].0 + dels[0].1;
        assert(forall|d: int|
            0 <= d < dels.len() - 1 ==> #[trigger] dels.drop_first()[d] == dels[d + 1]);
        lemma_chained_sum(dels.drop_first(), end0, cap);
    }
}

/// The gap sizes split into those before an untouched region and those after
/// it.
proof fn lemma_sum_split(dels: Seq<(int, int)>, o: int, l: int)
    requires
        l >= 0,
        forall|d: int|
            0 <= d < dels.len() ==> ((#[trigger] dels[d]).0 + dels[d].1 <= o || dels[d].0 >= o
                + l),
        forall|d: int| 0 <= d < dels.len() ==> (#[trigger] dels[d]).1 > 0,
    ensures
        sum_lens(dels) == shift_before(dels, o) + after_sum(dels, o + l),
    decreases dels.len(),
{
    if dels.len() > 0 {
        assert(forall|d: int|
            0 <= d < dels.len() - 1 ==> #[trigger] dels.drop_first()[d] == dels[d + 1]);
        lemma_sum_split(dels.drop_first(), o, l);
    }
}

/// The sizes of the gaps at or after `m`.
pub open spec fn after_sum(dels: Seq<(int, int)>, m: int) -> int
    decreases dels.len(),
{
    if dels.len() == 0 {
        0int
    } else {
        (if dels[0].0 >= m {
            dels[0].1
        } else {
            0int
        }) + after_sum(dels.drop_first(), m)
    }
}

/// Chained gaps at or after `m`, all ending by `cap`, total at most
/// `cap - m`.
proof fn lemma_after_sum_le(dels: Seq<(int, int)>, base: int, m: int, cap: int)
    requires
        chained(dels, base),
        m >= 0,
        forall|d: int| 0 <= d < dels.len() ==> (#[trigger] dels[d]).0 + dels[d].1 <= cap,
    ensures
        after_sum(dels, m) <= (if cap - m >= 0 { cap - m } else { 0int }),
        after_sum(dels, m) >= 0,
    decreases dels.len(),
{
    if dels.len() > 0 {
        let end0 = dels[0].0 + dels[0].1;
        assert(forall|d: int|
            0 <= d < dels.len() - 1 ==> #[trigger] dels.drop_first()[d] == dels[d + 1]);
        lemma_after_sum_le(dels.drop_first(), end0, m, cap);
        if dels[0].0 >= m {
            lemma_chained_lens(dels, base);
            assert(after_sum(dels.drop_first(), m) <= (if cap - end0 >= 0 {
                cap - end0
            } else {
                0int
            })) by {
                lemma_after_after(dels.drop_first(), end0, m, cap);
            }
        }
    }
}

/// For gaps all at or after their chain base, the after-sum from a lower
/// mark is the whole sum.
proof fn lemma_after_after(dels: Seq<(int, int)>, base: int, m: int, cap: int)
    requires
        chained(dels, base),
        base >= m,
        forall|d: int| 0 <= d < dels.len() ==> (#[trigger] dels[d]).0 + dels[d].1 <= cap,
    ensures
        after_sum(dels, m) <= (if cap - base >= 0 { cap - base } else { 0int }),
    decreases dels.len(),
{
    if dels.len() > 0 {
        let end0 = dels[0].0 + dels[0].1;
        assert(forall|d: int|
            0 <= d < dels.len() - 1 ==> #[trigger] dels.drop_first()[d] == dels[d + 1]);
        lemma_after_after(dels.drop_first(), end0, m, cap);
    }
}

/// The surviving total is the buffer length less the gaps.
proof fn lemma_survive_sum(dels: Seq<(int, int)>, cursor: int, buflen: int)
    requires
        chained(dels, cursor),
        cursor >= 0,
        cursor <= buflen,
        forall|d: int| 0 <= d < dels.len() ==> (#[trigger] dels[d]).0 + dels[d].1 <= buflen,
    ensures
        sum_lens(survive_walk(dels, cursor, buflen)) == buflen - cursor - sum_lens(dels),
    decreases dels.len(),
{
    if dels.len() == 0 {
        if buflen > cursor {
            assert(sum_lens(survive_walk(dels, cursor, buflen)) == buflen - cursor) by {
                let w = survive_walk(dels, cursor, buflen);
                assert(w =~= seq![(cursor, buflen - cursor)]);
                assert(w.drop_first() =~= Seq::<(int, int)>::empty());
                assert(sum_lens(Seq::<(int, int)>::empty()) == 0);
                assert(sum_lens(w) == w[0].1 + sum_lens(w.drop_first()));
            }
        }
    } else {
        let end0 = dels[0].0 + dels[0].1;
        lemma_survive_sum(dels.drop_first(), end0, buflen);
        let w = survive_walk(dels, cursor, buflen);
        let rest = survive_walk(dels.drop_first(), end0, buflen);
        if cursor < dels[0].0 {
            assert(w == seq![(cursor, dels[0].0 - cursor)] + rest);
            assert(w.drop_first() =~= rest);
            assert(sum_lens(w) == (dels[0].0 - cursor) + sum_lens(rest));
        } else {
            assert(w =~= rest);
        }
    }
}

/// After relocation every buffer view's region lies inside its compacted
/// buffer: the rewritten offset plus the view's length is at most the
/// buffer's new length.
pub proof fn lemma_view_in_range(views: Seq<JsonView>, i: int)
    requires
        regions_bounded(views),
        0 <= i < views.len(),
        view_region(views[i]) is Some,
        ({
            // No region of this buffer reaches past the end of the one that
            // sorts last; views that do not overlap always satisfy this.
            let rs = sorted_regions(views, view_region(views[i])->Some_0.0);
            forall|q: int|
                0 <= q < rs.len() ==> (#[trigger] rs[q]).0 + rs[q].1 <= rs.last().0
                    + rs.last().1
        }),
    ensures
        ({
            let (b, (o, l)) = view_region(views[i])->Some_0;
            let sh = shift_before(dels_for(views, b), o as int);
            &&& (b as int) < group_count(views)
            &&& sh <= o
            &&& o - sh + l <= sum_lens(survivors_for(views, b))
        }),
{
    let (b, (o, l)) = view_region(views[i])->Some_0;
    let leq = |x: (u64, u64), y: (u64, u64)| region_leq(x, y);
    lemma_group_count_member(views, i);
    lemma_regions_member(views, i);
    let rs = sorted_regions(views, b);
    broadcast use vstd::seq_lib::group_to_multiset_ensures;

    regions_of(views, b).lemma_sort_by_ensures(leq);
    assert(rs.contains((o, l))) by {
        assert(regions_of(views, b).contains((o, l)));
        if !regions_of(views, b).contains((o, l)) {
        }
        assert(rs.to_multiset().count((o, l)) > 0);
    }
    let p = choose|p: int| 0 <= p < rs.len() && rs[p] == (o, l);
    let dels = dels_for(views, b);
    lemma_deleted_chained(rs, 0);
    lemma_chained_lens(dels, 0);
    lemma_gaps_avoid(rs, 0, p);
    lemma_regions_of_bound(views, b);
    lemma_sort_pairs_bound(regions_of(views, b));
    assert(forall|q: int| 0 <= q < rs.len() ==> (#[trigger] rs[q]).0 + rs[q].1 <= u32::MAX);
    assert(rs.len() > 0);
    let last = rs.last();
    let buflen = buffer_len_of(rs);
    assert(buflen >= last.0 + last.1 && buflen <= last.0 + last.1 + 3) by {
        vstd::arithmetic::div_mod::lemma_fundamental_div_mod(last.0 + last.1 as int + 3, 4);
    }
    assert(forall|q: int| 0 <= q < rs.len() ==> (#[trigger] rs[q]).0 <= last.0) by {
        assert(forall|q: int| 0 <= q < rs.len() ==> leq(#[trigger] rs[q], rs[rs.len() - 1]));
    }
    lemma_gaps_below(rs, 0, last.0 as int);
    assert(forall|d: int|
        0 <= d < dels.len() ==> (#[trigger] dels[d]).0 + dels[d].1 <= buflen);
    lemma_survive_sum(dels, 0, buflen);
    assert(sum_lens(survivors_for(views, b)) == buflen - sum_lens(dels));
    lemma_sum_split(dels, o as int, l as int);
    lemma_shift_le(dels, 0, o as int);
    assert(o + l <= last.0 + last.1) by {
        assert(rs[p].0 + rs[p].1 <= rs.last().0 + rs.last().1);
    }
    lemma_after_sum_le(dels, 0, o as int + l as int, buflen);
    assert(o - shift_before(dels, o as int) + l <= buflen - sum_lens(dels));
}

/// The region at `i` keeps the group count at least past its buffer.
proof fn lemma_group_count_member(views: Seq<JsonView>, i: int)
    requires
        0 <= i < views.len(),
        view_region(views[i]) is Some,
    ensures
        (view_region(views[i])->Some_0.0 as int) < group_count(views),
    decreases views.len(),
{
    if i == 0 {
        lemma_group_count_nonneg(views.drop_first());
    } else {
        assert(views.drop_first()[i - 1] == views[i]);
        lemma_group_count_member(views.drop_first(), i - 1);
    }
}

/// The region at `i` is among its buffer's gathered regions.
proof fn lemma_regions_member(views: Seq<JsonView>, i: int)
    requires
        0 <= i < views.len(),
        view_region(views[i]) is Some,
    ensures
        regions_of(views, view_region(views[i])->Some_0.0).contains(
            view_region(views[i])->Some_0.1,
        ),
    decreases views.len(),
{
    let (b, p) = view_region(views[i])->Some_0;
    if i == 0 {
        assert(regions_of(views, b)[0] == p);
    } else {
        assert(views.drop_first()[i - 1] == views[i]);
        lemma_regions_member(views.drop_first(), i - 1);
        let rest = regions_of(views.drop_first(), b);
        let q = choose|q: int| 0 <= q < rest.len() && rest[q] == p;
        match view_region(views[0]) {
            Some((vb, hp)) => {
                if vb == b {
                    assert(regions_of(views, b)[q + 1] == p);
                } else {
                    assert(regions_of(views, b) =~= rest);
                }
            },
            None => {
                assert(regions_of(views, b) =~= rest);
            },
        }
    }
}

/// After the buffers sweep and relocation planning, the `buffers` array
/// holds one entry per distinct referenced buffer index below its old
/// length; the plan's `remaining_chunk_indexes` lists exactly the distinct
/// referenced original ordinals, ascending.
pub proof fn lemma_relocated_buffers_len(j: JsonView, elems: Seq<JsonView>)
    requires
        j.get("buffers"@) == Some(JsonView::Arr(elems)),
        elems.len() <= u64::MAX,
        crate::paths::sorted_strict(crate::sweep::sweep_table(j, crate::cleaner::buffer_paths())),
    ensures
        ({
            let j1 = crate::sweep::sweep_spec(j, "buffers"@, crate::cleaner::buffer_paths());
            let t = crate::sweep::sweep_table(j, crate::cleaner::buffer_paths());
            plan_doc(j1).get("buffers"@) matches Some(b2) && b2 is Arr && b2->Arr_0.len()
                == crate::sweep::count_range(t, 0, elems.len() as int)
        }),
{
    reveal_strlit("buffers");
    reveal_strlit("bufferViews");
    assert("buffers"@.len() == 7);
    assert("bufferViews"@.len() == 11);
    assert("buffers"@ != "bufferViews"@);
    let j1 = crate::sweep::sweep_spec(j, "buffers"@, crate::cleaner::buffer_paths());
    let t = crate::sweep::sweep_table(j, crate::cleaner::buffer_paths());
    crate::cleaner::lemma_buffer_sweep_len(j, elems);
    let kept = j1.get("buffers"@)->Some_0->Arr_0;
    assert(j1 is Obj);
    let views = views_of(j1);
    let j2 = match j1.get("bufferViews"@) {
        Some(v) => if v is Arr {
            j1.put("bufferViews"@, JsonView::Arr(rewrite_views(views)))
        } else {
            j1
        },
        _ => j1,
    };
    match j1.get("bufferViews"@) {
        Some(v) => {
            if v is Arr {
                crate::json::lemma_find_put_other(
                    j1->Obj_0,
                    "buffers"@,
                    "bufferViews"@,
                    JsonView::Arr(rewrite_views(views)),
                );
            }
        },
        _ => {},
    }
    assert(j2.get("buffers"@) == Some(JsonView::Arr(kept)));
    assert(j2 is Obj);
    crate::json::lemma_find_put_same(
        j2->Obj_0,
        "buffers"@,
        JsonView::Arr(update_buffers(kept, views)),
    );
    assert(plan_doc(j1).get("buffers"@) == Some(JsonView::Arr(update_buffers(kept, views))));
}

/// The offset rewrite leaves a view's buffer reference alone.
proof fn lemma_rewrite_one_buffer(v: JsonView, views: Seq<JsonView>, g: int)
    ensures
        crate::paths::sites(rewrite_one(v, views, g), seq![crate::paths::StepV::Key("buffer"@)])
            == crate::paths::sites(v, seq![crate::paths::StepV::Key("buffer"@)]),
{
    reveal_strlit("buffer");
    reveal_strlit("byteOffset");
    assert("buffer"@.len() == 6);
    assert("byteOffset"@.len() == 10);
    assert("buffer"@ != "byteOffset"@);
    let bref = seq![crate::paths::StepV::Key("buffer"@)];
    match view_buffer(v) {
        Some(b) => {
            if (b as int) < g {
                let o = view_offset(v) as int;
                crate::sweep::lemma_sites_put_other(
                    v,
                    "byteOffset"@,
                    JsonView::Num(u64_text(o - shift_before(dels_for(views, b), o))),
                    bref,
                );
            }
        },
        None => {},
    }
}

/// Sites agree element by element, so they agree over the whole list.
proof fn lemma_sites_seq_pointwise(
    a: Seq<JsonView>,
    b: Seq<JsonView>,
    path: Seq<crate::paths::StepV>,
)
    requires
        a.len() == b.len(),
        forall|i: int|
            0 <= i < a.len() ==> crate::paths::sites(#[trigger] a[i], path)
                == crate::paths::sites(#[trigger] b[i], path),
    ensures
        crate::paths::sites_seq(a, path) == crate::paths::sites_seq(b, path),
    decreases a.len(),
{
    if a.len() > 0 {
        assert(forall|i: int|
            0 <= i < a.len() - 1 ==> #[trigger] a.drop_first()[i] == a[i + 1]);
        assert(forall|i: int|
            0 <= i < b.len() - 1 ==> #[trigger] b.drop_first()[i] == b[i + 1]);
        lemma_sites_seq_pointwise(a.drop_first(), b.drop_first(), path);
    }
}

/// After the buffers sweep and relocation planning, every buffer reference
/// is in range: each reference site of the planned document holds an index
/// below the new `buffers` length — provided every reference of the input
/// was an index below the old length, and the table is the sweep's own (the
/// distinct referenced indices, sorted, as `sweep_resources` returns it).
pub proof fn lemma_relocated_buffer_refs_in_range(j: JsonView, elems: Seq<JsonView>)
    requires
        j.get("buffers"@) == Some(JsonView::Arr(elems)),
        elems.len() <= u64::MAX,
        crate::paths::sorted_strict(crate::sweep::sweep_table(j, crate::cleaner::buffer_paths())),
        crate::sweep::sweep_table(j, crate::cleaner::buffer_paths()).to_set()
            == crate::paths::vals_used(
            crate::sweep::sites_multi(j, crate::cleaner::buffer_paths()),
        ),
        forall|i: int|
            0 <= i < crate::paths::sites(j, crate::cleaner::buffer_paths()[0]).len() ==> (
            crate::numtext::text_u64(
                #[trigger] crate::paths::sites(j, crate::cleaner::buffer_paths()[0])[i],
            ) matches Some(v) && v < elems.len()),
    ensures
        ({
            let r = plan_doc(
                crate::sweep::sweep_spec(j, "buffers"@, crate::cleaner::buffer_paths()),
            );
            let t = crate::sweep::sweep_table(j, crate::cleaner::buffer_paths());
            let newlen = crate::sweep::count_range(t, 0, elems.len() as int);
            forall|i: int|
                0 <= i < crate::paths::sites(r, crate::cleaner::buffer_paths()[0]).len() ==> (
                crate::numtext::text_u64(
                    #[trigger] crate::paths::sites(r, crate::cleaner::buffer_paths()[0])[i],
                ) matches Some(v) && (v as int) < newlen)
        }),
{
    reveal_strlit("buffers");
    reveal_strlit("bufferViews");
    assert("buffers"@.len() == 7);
    assert("bufferViews"@.len() == 11);
    assert("buffers"@ != "bufferViews"@);
    let bpaths = crate::cleaner::buffer_paths();
    let bpath = bpaths[0];
    let t = crate::sweep::sweep_table(j, bpaths);
    let n = elems.len() as int;
    let texts = crate::paths::sites(j, bpath);
    assert(bpath[0] is Key && bpath[0]->Key_0 == "bufferViews"@);
    assert(crate::sweep::sites_multi(j, bpaths) =~= texts) by {
        assert(bpaths.drop_first() =~= Seq::<Seq<crate::paths::StepV>>::empty());
        assert(crate::sweep::sites_multi(j, bpaths.drop_first()) =~= Seq::<Seq<char>>::empty());
        assert(texts + Seq::<Seq<char>>::empty() =~= texts);
    }
    assert forall|q: int| 0 <= q < t.len() implies (#[trigger] t[q]) < elems.len() by {
        assert(t.contains(t[q]));
        assert(t.to_set().contains(t[q]));
        assert(crate::paths::vals_used(texts).contains(t[q]));
        crate::sweep::lemma_vals_used_source(texts, t[q]);
        let i = choose|i: int|
            0 <= i < texts.len() && crate::numtext::text_u64(#[trigger] texts[i]) == Some(t[q]);
    }
    // Removal under the `buffers` key leaves the reference sites alone.
    let jd = crate::sweep::drop_unused(j, "buffers"@, t);
    assert(crate::paths::sites(jd, bpath) == texts) by {
        match j.get("buffers"@) {
            Some(arr) => {
                if arr is Arr {
                    crate::sweep::lemma_sites_put_other(
                        j,
                        "buffers"@,
                        JsonView::Arr(crate::sweep::filter_kept(arr->Arr_0, t, 0)),
                        bpath,
                    );
                }
            },
            None => {},
        }
    }
    // The single-path renumbering sends each site through the table.
    let j1 = crate::sweep::sweep_spec(j, "buffers"@, bpaths);
    assert(j1 == crate::paths::remap(jd, bpath, t)) by {
        assert(bpaths.drop_first() =~= Seq::<Seq<crate::paths::StepV>>::empty());
        assert(crate::sweep::remap_multi(
            crate::paths::remap(jd, bpaths[0], t),
            bpaths.drop_first(),
            t,
        ) == crate::paths::remap(jd, bpaths[0], t));
    }
    crate::paths::lemma_sites_remap(jd, bpath, t);
    let mapped = texts.map_values(|s: Seq<char>| crate::paths::remap1(t, s));
    assert(crate::paths::sites(j1, bpath) == mapped);
    // Relocation planning rewrites offsets and buffer lengths but no buffer
    // references.
    let views = views_of(j1);
    let r = plan_doc(j1);
    let gc = group_count(views);
    let bref = seq![crate::paths::StepV::Key("buffer"@)];
    assert(crate::paths::sites(r, bpath) == crate::paths::sites(j1, bpath)) by {
        let j2 = match j1.get("bufferViews"@) {
            Some(v) => if v is Arr {
                j1.put("bufferViews"@, JsonView::Arr(rewrite_views(views)))
            } else {
                j1
            },
            _ => j1,
        };
        match j1.get("bufferViews"@) {
            Some(v) => {
                if v is Arr {
                    assert(j1 is Obj);
                    crate::json::lemma_find_put_same(
                        j1->Obj_0,
                        "bufferViews"@,
                        JsonView::Arr(rewrite_views(views)),
                    );
                    assert(j2.get("bufferViews"@) == Some(JsonView::Arr(rewrite_views(views))));
                    assert(views == v->Arr_0);
                    assert(bpath.skip(1)[0] == bpath[1]);
                    assert(bpath[1] is Each);
                    assert(bpath.skip(1).skip(1) =~= bref);
                    assert(crate::paths::sites(j2, bpath) == crate::paths::sites(
                        JsonView::Arr(rewrite_views(views)),
                        bpath.skip(1),
                    ));
                    assert(crate::paths::sites(JsonView::Arr(rewrite_views(views)), bpath.skip(1))
                        == crate::paths::sites_seq(rewrite_views(views), bref));
                    assert(crate::paths::sites(j1, bpath) == crate::paths::sites(
                        JsonView::Arr(views),
                        bpath.skip(1),
                    ));
                    assert(crate::paths::sites(JsonView::Arr(views), bpath.skip(1))
                        == crate::paths::sites_seq(views, bref));
                    assert(rewrite_views(views).len() == views.len());
                    assert forall|q: int|
                        0 <= q < views.len() implies crate::paths::sites(
                        #[trigger] rewrite_views(views)[q],
                        bref,
                    ) == crate::paths::sites(#[trigger] views[q], bref) by {
                        assert(rewrite_views(views)[q] == rewrite_one(views[q], views, gc));
                        lemma_rewrite_one_buffer(views[q], views, gc);
                    }
                    lemma_sites_seq_pointwise(rewrite_views(views), views, bref);
                    assert(crate::paths::sites(j2, bpath) == crate::paths::sites_seq(
                        views,
                        bref,
                    ));
                    assert(crate::paths::sites(j1, bpath) == crate::paths::sites_seq(
                        views,
                        bref,
                    ));
                }
            },
            _ => {},
        }
        match j2.get("buffers"@) {
            Some(v) => {
                if v is Arr {
                    crate::sweep::lemma_sites_put_other(
                        j2,
                        "buffers"@,
                        JsonView::Arr(update_buffers(v->Arr_0, views)),
                        bpath,
                    );
                }
            },
            _ => {},
        }
    }
    // Every rewritten site is the rank of a kept index, below the new length.
    crate::sweep::lemma_sorted_strict_ge(t);
    assert forall|i: int|
        0 <= i < crate::paths::sites(r, bpath).len() implies (crate::numtext::text_u64(
        #[trigger] crate::paths::sites(r, bpath)[i],
    ) matches Some(v) && (v as int) < crate::sweep::count_range(t, 0, n)) by {
        assert(crate::paths::sites(r, bpath)[i] == mapped[i]);
        assert(mapped[i] == crate::paths::remap1(t, texts[i]));
        let v0 = crate::numtext::text_u64(texts[i])->Some_0;
        crate::sweep::lemma_vals_used_member(texts, i);
        assert(t.to_set().contains(v0));
        assert(t.contains(v0));
        crate::sweep::lemma_remap1_in_range(t, texts[i], n);
    }
}

} // verus!
