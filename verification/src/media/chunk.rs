//! CMAF chunk (partial segment) boundary detection.
//!
//! Detects moof+mdat pairs within a CMAF segment, enabling LL-HLS part extraction.
//! A single CMAF segment may contain multiple moof+mdat pairs when produced by
//! a low-latency encoder (chunked CMAF).

use crate::bytes;
use crate::media::box_type;
use crate::media::{same_code, FourCC};
use vstd::prelude::*;

verus! {

/// A detected chunk boundary within a CMAF segment.
#[derive(Debug, Clone, Copy)]
pub struct ChunkBoundary {
    /// Byte offset of the moof box within the segment.
    pub offset: usize,
    /// Total size of the moof+mdat pair in bytes.
    pub size: usize,
    /// Duration of this chunk in the segment's timescale (0 if not computed).
    pub duration_ticks: u64,
    /// Whether this chunk contains an independent (IDR/sync) frame.
    pub independent: bool,
}

/// Whether a whole box with a 32-bit size stands at `pos`.
pub open spec fn box_fits(s: Seq<u8>, pos: int) -> bool {
    &&& pos + 8 <= s.len()
    &&& bytes::be32(s, pos) >= 8
    &&& pos + bytes::be32(s, pos) <= s.len()
}

/// The type of the box at `pos`.
pub open spec fn code_of(s: Seq<u8>, pos: int) -> Seq<u8> {
    s.subrange(pos + 4, pos + 8)
}

/// Whether sample flags mark a sync sample: `sample_depends_on`, bits 25 and 24, is 2.
pub open spec fn sync_flags(flags: u32) -> bool {
    (flags / 0x100_0000) % 4 == 2
}

/// The default sample flags in the tfhd box at `pos`, if it has any.
pub open spec fn tfhd_default_flags(s: Seq<u8>, pos: int) -> Option<u32> {
    let flags = bytes::be24(s, pos + 9);
    let at = pos + 16 + (if flags & 0x01 != 0 { 8int } else { 0 }) + (if flags & 0x02 != 0 {
        4int
    } else {
        0
    }) + (if flags & 0x08 != 0 { 4int } else { 0 }) + (if flags & 0x10 != 0 { 4int } else { 0 });
    if pos + 16 <= s.len() && flags & 0x20 != 0 && at + 4 <= s.len() {
        Some(bytes::be32(s, at))
    } else {
        None
    }
}

/// The first sample flags in the trun box at `pos`, if it has any.
pub open spec fn trun_first_flags(s: Seq<u8>, pos: int) -> Option<u32> {
    let flags = bytes::be24(s, pos + 9);
    let at = pos + 16 + (if flags & 0x01 != 0 { 4int } else { 0 });
    if pos + 16 <= s.len() && flags & 0x04 != 0 && at + 4 <= s.len() {
        Some(bytes::be32(s, at))
    } else {
        None
    }
}

/// Whether the traf payload from `pos` on, with the default flags found before, starts
/// with a sync sample: by the first sample flags of a trun, else by the default flags of
/// a tfhd, else yes.
pub open spec fn traf_independent(s: Seq<u8>, pos: int, default_flags: Option<u32>) -> bool
    decreases s.len() - pos,
{
    if pos < 0 || !box_fits(s, pos) {
        match default_flags {
            Some(flags) => sync_flags(flags),
            None => true,
        }
    } else {
        let next = pos + bytes::be32(s, pos);
        if code_of(s, pos) == box_type::TFHD@ {
            traf_independent(
                s,
                next,
                if tfhd_default_flags(s, pos) is Some {
                    tfhd_default_flags(s, pos)
                } else {
                    default_flags
                },
            )
        } else if code_of(s, pos) == box_type::TRUN@ && trun_first_flags(s, pos) is Some {
            sync_flags(trun_first_flags(s, pos)->Some_0)
        } else {
            traf_independent(s, next, default_flags)
        }
    }
}

/// Whether the first traf box of a moof box at or after `pos` starts with a sync sample.
pub open spec fn moof_independent(s: Seq<u8>, pos: int) -> bool
    decreases s.len() - pos,
{
    if pos < 0 || !box_fits(s, pos) {
        false
    } else if code_of(s, pos) == box_type::TRAF@ {
        traf_independent(s.subrange(pos + 8, pos + bytes::be32(s, pos)), 0, None)
    } else {
        moof_independent(s, pos + bytes::be32(s, pos))
    }
}

/// Whether a moof box stands at `pos` with a whole mdat box right behind it.
pub open spec fn pair_at(s: Seq<u8>, pos: int) -> bool {
    let mdat = pos + bytes::be32(s, pos);
    &&& box_fits(s, pos)
    &&& code_of(s, pos) == box_type::MOOF@
    &&& box_fits(s, mdat)
    &&& code_of(s, mdat) == box_type::MDAT@
}

/// The chunk at `pos`.
pub open spec fn chunk_at(s: Seq<u8>, pos: int) -> ChunkBoundary {
    let moof_size = bytes::be32(s, pos);
    ChunkBoundary {
        offset: pos as usize,
        size: (moof_size + bytes::be32(s, pos + moof_size)) as usize,
        duration_ticks: 0,
        independent: moof_independent(s.subrange(pos, pos + moof_size), 8),
    }
}

/// The chunks from `pos` on, after those in `got`: every moof+mdat pair met when
/// stepping from box to box, up to the first box that does not fit.
pub open spec fn chunks_from(s: Seq<u8>, pos: int, got: Seq<ChunkBoundary>) -> Seq<ChunkBoundary>
    decreases s.len() - pos,
{
    if pos < 0 || !box_fits(s, pos) {
        got
    } else {
        let next = pos + bytes::be32(s, pos);
        if pair_at(s, pos) {
            chunks_from(s, next + bytes::be32(s, next), got.push(chunk_at(s, pos)))
        } else {
            chunks_from(s, next, got)
        }
    }
}

/// Whether a whole box stands at `pos`.
fn fits(data: &[u8], pos: usize) -> (yes: bool)
    requires
        pos <= data.len(),
    ensures
        yes == box_fits(data@, pos as int),
{
    if data.len() - pos < 8 {
        return false;
    }
    let size: u32 = bytes::read_u32(data, pos);
    size >= 8 && size as u64 <= (data.len() - pos) as u64
}

/// Whether the box at `pos` has the given type.
fn has_code(data: &[u8], pos: usize, code: &FourCC) -> (yes: bool)
    requires
        pos + 8 <= data.len(),
    ensures
        yes == (code_of(data@, pos as int) == code@),
{
    same_code(&bytes::read_4(data, pos + 4), code)
}

/// Check if sample_flags indicate a sync/IDR sample.
/// The `sample_depends_on` field occupies bits 25-24 of sample_flags.
/// Value 2 = "does not depend on others" = sync/IDR.
pub fn is_sync_sample(flags: u32) -> (yes: bool)
    ensures
        yes == sync_flags(flags),
{
    (flags / 0x100_0000) % 4 == 2
}

/// Reads the default sample flags of the tfhd box at `pos`.
fn read_tfhd_flags(data: &[u8], pos: usize) -> (flags: Option<u32>)
    requires
        pos + 8 <= data.len(),
    ensures
        flags == tfhd_default_flags(data@, pos as int),
{
    if data.len() - pos < 16 {
        return None;
    }
    let flags: u32 = bytes::read_u24(data, pos + 9);
    if flags & 0x20 == 0 {
        return None;
    }
    let mut skip: usize = 16;
    if flags & 0x01 != 0 {
        skip = skip + 8;
    }
    if flags & 0x02 != 0 {
        skip = skip + 4;
    }
    if flags & 0x08 != 0 {
        skip = skip + 4;
    }
    if flags & 0x10 != 0 {
        skip = skip + 4;
    }
    if data.len() - pos < skip + 4 {
        return None;
    }
    Some(bytes::read_u32(data, pos + skip))
}

/// Reads the first sample flags of the trun box at `pos`.
fn read_trun_first_flags(data: &[u8], pos: usize) -> (flags: Option<u32>)
    requires
        pos + 8 <= data.len(),
    ensures
        flags == trun_first_flags(data@, pos as int),
{
    if data.len() - pos < 16 {
        return None;
    }
    let flags: u32 = bytes::read_u24(data, pos + 9);
    if flags & 0x04 == 0 {
        return None;
    }
    let skip: usize = if flags & 0x01 != 0 {
        20
    } else {
        16
    };
    if data.len() - pos < skip + 4 {
        return None;
    }
    Some(bytes::read_u32(data, pos + skip))
}

/// Check traf children for sync sample flags.
pub fn check_traf_independence(traf_data: &[u8]) -> (yes: bool)
    ensures
        yes == traf_independent(traf_data@, 0, None),
{
    let mut pos: usize = 0;
    let mut default_flags: Option<u32> = None;
    while fits(traf_data, pos)
        invariant
            pos <= traf_data.len(),
            traf_independent(traf_data@, 0, None) == traf_independent(
                traf_data@,
                pos as int,
                default_flags,
            ),
        decreases traf_data.len() - pos,
    {
        let size: usize = bytes::read_u32(traf_data, pos) as usize;
        if has_code(traf_data, pos, &box_type::TFHD) {
            let found: Option<u32> = read_tfhd_flags(traf_data, pos);
            if found.is_some() {
                default_flags = found;
            }
            proof {
                assert(box_type::TFHD@[1] != box_type::TRUN@[1]);
            }
        } else if has_code(traf_data, pos, &box_type::TRUN) {
            if let Some(flags) = read_trun_first_flags(traf_data, pos) {
                return is_sync_sample(flags);
            }
        }
        pos = pos + size;
    }
    match default_flags {
        Some(flags) => is_sync_sample(flags),
        None => true,
    }
}

/// Check if a moof box contains a sync/IDR sample (independent chunk).
///
/// Looks at the trun box's first_sample_flags (if present) or tfhd default_sample_flags.
/// A sample is independent if the `sample_depends_on` field is 2 (depends on nothing).
pub fn is_independent_chunk(moof_data: &[u8]) -> (yes: bool)
    ensures
        yes == moof_independent(moof_data@, 8),
{
    if moof_data.len() < 8 {
        return false;
    }
    let mut pos: usize = 8;
    while fits(moof_data, pos)
        invariant
            pos <= moof_data.len(),
            moof_independent(moof_data@, 8) == moof_independent(moof_data@, pos as int),
        decreases moof_data.len() - pos,
    {
        let size: usize = bytes::read_u32(moof_data, pos) as usize;
        if has_code(moof_data, pos, &box_type::TRAF) {
            return check_traf_independence(&moof_data[pos + 8..pos + size]);
        }
        pos = pos + size;
    }
    false
}

/// Detect chunk boundaries (moof+mdat pairs) in a CMAF segment.
///
/// Walks through top-level boxes looking for consecutive moof+mdat pairs.
/// Each pair represents one CMAF chunk that can be served as an LL-HLS part.
pub fn detect_chunk_boundaries(data: &[u8]) -> (boundaries: Vec<ChunkBoundary>)
    ensures
        boundaries@ == chunks_from(data@, 0, Seq::empty()),
{
    let mut boundaries: Vec<ChunkBoundary> = Vec::new();
    let mut pos: usize = 0;
    while fits(data, pos)
        invariant
            pos <= data.len(),
            chunks_from(data@, 0, Seq::empty()) == chunks_from(data@, pos as int, boundaries@),
        decreases data.len() - pos,
    {
        let size: usize = bytes::read_u32(data, pos) as usize;
        let next: usize = pos + size;
        if has_code(data, pos, &box_type::MOOF) && fits(data, next) && has_code(
            data,
            next,
            &box_type::MDAT,
        ) {
            let mdat_size: usize = bytes::read_u32(data, next) as usize;
            let independent: bool = is_independent_chunk(&data[pos..next]);
            boundaries.push(
                ChunkBoundary {
                    offset: pos,
                    size: size + mdat_size,
                    duration_ticks: 0,
                    independent,
                },
            );
            pos = next + mdat_size;
        } else {
            pos = next;
        }
    }
    boundaries
}

/// Extract chunk data (moof+mdat) from a segment at the given boundary.
///
/// Returns `None` if the boundary extends beyond the data length.
pub fn extract_chunk(data: &[u8], boundary: &ChunkBoundary) -> (chunk: Option<Vec<u8>>)
    ensures
        boundary.offset + boundary.size > data@.len() ==> chunk is None,
        boundary.offset + boundary.size <= data@.len() ==> (chunk matches Some(c) && c@
            == data@.subrange(boundary.offset as int, boundary.offset + boundary.size)),
{
    if boundary.offset > data.len() || boundary.size > data.len() - boundary.offset {
        return None;
    }
    Some(bytes::to_vec(&data[boundary.offset..boundary.offset + boundary.size]))
}

/// Whether chunks are whole moof+mdat pairs of `s`, in order and without overlap, all of
/// them at or after `from`.
pub open spec fn chunks_in_order(s: Seq<u8>, from: int, chunks: Seq<ChunkBoundary>) -> bool {
    &&& forall|i: int|
        0 <= i < chunks.len() ==> {
            let c = #[trigger] chunks[i];
            &&& from <= c.offset
            &&& c.offset + c.size <= s.len()
            &&& c.size >= 16
            &&& pair_at(s, c.offset as int)
        }
    &&& forall|i: int, j: int|
        0 <= i < j < chunks.len() ==> (#[trigger] chunks[i]).offset + chunks[i].size <= (
        #[trigger] chunks[j]).offset
}

/// Every detected chunk is a whole moof+mdat pair inside the segment, and the chunks
/// follow one another without overlap: the parts of a segment never share a byte.
pub proof fn chunks_are_disjoint_pairs(s: Seq<u8>)
    requires
        s.len() <= usize::MAX,
    ensures
        chunks_in_order(s, 0, chunks_from(s, 0, Seq::empty())),
{
    lemma_chunks_in_order(s, 0, Seq::empty());
}

proof fn lemma_chunks_in_order(s: Seq<u8>, pos: int, got: Seq<ChunkBoundary>)
    requires
        0 <= pos,
        s.len() <= usize::MAX,
        chunks_in_order(s, 0, got),
        forall|i: int| 0 <= i < got.len() ==> (#[trigger] got[i]).offset + got[i].size <= pos,
    ensures
        chunks_in_order(s, 0, chunks_from(s, pos, got)),
    decreases s.len() - pos,
{
    if box_fits(s, pos) {
        let next = pos + bytes::be32(s, pos);
        if pair_at(s, pos) {
            let c = chunk_at(s, pos);
            assert(c.offset + c.size == next + bytes::be32(s, next));
            lemma_chunks_in_order(s, next + bytes::be32(s, next), got.push(c));
        } else {
            lemma_chunks_in_order(s, next, got);
        }
    }
}

} // verus!
