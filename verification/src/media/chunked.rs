//! Chunks that were written are found, and their flags say whether they can be started with.

use crate::bytes;
use crate::media::box_type;
use crate::media::chunk;
use crate::media::chunk::ChunkBoundary;
use crate::media::cmaf;
use vstd::prelude::*;

verus! {

/// Chunks one after the other: for each a fragment box and a data box, given by their payloads.
pub open spec fn stream(list: Seq<(Seq<u8>, Seq<u8>)>) -> Seq<u8>
    decreases list.len(),
{
    if list.len() == 0 {
        Seq::empty()
    } else {
        cmaf::boxed(box_type::MOOF@, list[0].0) + cmaf::boxed(box_type::MDAT@, list[0].1) + stream(
            list.drop_first(),
        )
    }
}

/// Whether `found` are the chunks of such a stream from `at` on: where each starts, how long it
/// is, and whether its fragment starts with a sync sample.
pub open spec fn are_chunks(
    found: Seq<ChunkBoundary>,
    list: Seq<(Seq<u8>, Seq<u8>)>,
    at: int,
) -> bool
    decreases list.len(),
{
    if list.len() == 0 {
        found.len() == 0
    } else {
        let size = 16 + list[0].0.len() + list[0].1.len();
        &&& found.len() > 0
        &&& found[0].offset == at
        &&& found[0].size == size
        &&& found[0].independent == chunk::moof_independent(
            cmaf::boxed(box_type::MOOF@, list[0].0),
            8,
        )
        &&& are_chunks(found.drop_first(), list.drop_first(), at + size)
    }
}

/// A box in the middle of other bytes.
proof fn lemma_box_inside(before: Seq<u8>, code: Seq<u8>, payload: Seq<u8>, after: Seq<u8>)
    requires
        code.len() == 4,
        payload.len() + 8 <= u32::MAX,
    ensures
        ({
            let s = before + cmaf::boxed(code, payload) + after;
            let pos = before.len() as int;
            &&& chunk::box_fits(s, pos)
            &&& chunk::code_of(s, pos) == code
            &&& bytes::be32(s, pos) == payload.len() + 8
            &&& s.subrange(pos, pos + 8 + payload.len()) == cmaf::boxed(code, payload)
        }),
{
    let s = before + cmaf::boxed(code, payload) + after;
    let pos = before.len() as int;
    let size = (payload.len() + 8) as u32;
    assert(s.subrange(pos, pos + 4) =~= bytes::bytes32(size));
    bytes::lemma_be32_of_bytes32(s, pos, size);
    assert(chunk::code_of(s, pos) =~= code);
    assert(s.subrange(pos, pos + 8 + payload.len()) =~= cmaf::boxed(code, payload));
}

/// A fragment and its data at a place are a chunk.
proof fn lemma_pair(before: Seq<u8>, m: Seq<u8>, d: Seq<u8>, after: Seq<u8>)
    requires
        m.len() + 8 <= u32::MAX,
        d.len() + 8 <= u32::MAX,
        before.len() + m.len() + d.len() + 16 <= u32::MAX,
        u32::MAX <= usize::MAX,
    ensures
        ({
            let moof = cmaf::boxed(box_type::MOOF@, m);
            let s = before + moof + cmaf::boxed(box_type::MDAT@, d) + after;
            let pos = before.len() as int;
            let c = chunk::chunk_at(s, pos);
            &&& chunk::box_fits(s, pos)
            &&& chunk::pair_at(s, pos)
            &&& bytes::be32(s, pos) == m.len() + 8
            &&& bytes::be32(s, (pos + m.len() + 8) as int) == d.len() + 8
            &&& c.offset == pos
            &&& c.size == 16 + m.len() + d.len()
            &&& c.independent == chunk::moof_independent(moof, 8)
        }),
{
    let moof = cmaf::boxed(box_type::MOOF@, m);
    let mdat = cmaf::boxed(box_type::MDAT@, d);
    let s = before + moof + mdat + after;
    lemma_box_inside(before, box_type::MOOF@, m, mdat + after);
    assert(s =~= before + moof + (mdat + after));
    lemma_box_inside(before + moof, box_type::MDAT@, d, after);
    assert((before + moof).len() == before.len() + m.len() + 8);
}

/// One step from chunk to chunk.
proof fn lemma_chunk_step(s: Seq<u8>, pos: int, got: Seq<ChunkBoundary>, m: nat, d: nat)
    requires
        0 <= pos,
        chunk::box_fits(s, pos),
        chunk::pair_at(s, pos),
        bytes::be32(s, pos) == m + 8,
        bytes::be32(s, (pos + m + 8) as int) == d + 8,
    ensures
        chunk::chunks_from(s, pos, got) == chunk::chunks_from(
            s,
            (pos + m + d + 16) as int,
            got.push(chunk::chunk_at(s, pos)),
        ),
{
}

/// A stream and what is behind its first chunk.
proof fn lemma_stream_first(before: Seq<u8>, list: Seq<(Seq<u8>, Seq<u8>)>)
    requires
        list.len() > 0,
    ensures
        ({
            let past = before + cmaf::boxed(box_type::MOOF@, list[0].0) + cmaf::boxed(
                box_type::MDAT@,
                list[0].1,
            );
            &&& before + stream(list) == past + stream(list.drop_first())
            &&& past.len() == before.len() + 16 + list[0].0.len() + list[0].1.len()
        }),
{
    let past = before + cmaf::boxed(box_type::MOOF@, list[0].0) + cmaf::boxed(
        box_type::MDAT@,
        list[0].1,
    );
    assert(before + stream(list) =~= past + stream(list.drop_first()));
}

/// The chunks of a stream, one after the other.
#[verifier::spinoff_prover]
#[verifier::rlimit(40)]
proof fn lemma_chunks(before: Seq<u8>, list: Seq<(Seq<u8>, Seq<u8>)>, got: Seq<ChunkBoundary>) -> (
    found: Seq<ChunkBoundary>)
    requires
        (before + stream(list)).len() <= u32::MAX,
        u32::MAX <= usize::MAX,
    ensures
        chunk::chunks_from(before + stream(list), before.len() as int, got) == got + found,
        are_chunks(found, list, before.len() as int),
    decreases list.len(),
{
    let s = before + stream(list);
    let pos = before.len() as int;
    if list.len() == 0 {
        let none = Seq::<ChunkBoundary>::empty();
        assert(got + none =~= got);
        assert(!chunk::box_fits(s, pos));
        none
    } else {
        let m = list[0].0;
        let d = list[0].1;
        let rest = list.drop_first();
        let past = before + cmaf::boxed(box_type::MOOF@, m) + cmaf::boxed(box_type::MDAT@, d);
        lemma_stream_first(before, list);
        lemma_pair(before, m, d, stream(rest));
        let c = chunk::chunk_at(s, pos);
        lemma_chunk_step(s, pos, got, m.len(), d.len());
        let after = lemma_chunks(past, rest, got.push(c));
        let found = seq![c] + after;
        lemma_first_found(c, after, got);
        found
    }
}

proof fn lemma_first_found(c: ChunkBoundary, after: Seq<ChunkBoundary>, got: Seq<ChunkBoundary>)
    ensures
        (seq![c] + after).len() > 0,
        (seq![c] + after)[0] == c,
        (seq![c] + after).drop_first() == after,
        got.push(c) + after == got + (seq![c] + after),
{
    assert((seq![c] + after).drop_first() =~= after);
    assert(got.push(c) + after =~= got + (seq![c] + after));
}

/// The chunks of a segment are found where they were written: one for each fragment and its
/// data, with its own place and size, and with the independence of its own fragment.
pub proof fn written_chunks_are_found(list: Seq<(Seq<u8>, Seq<u8>)>) -> (found: Seq<ChunkBoundary>)
    requires
        stream(list).len() <= u32::MAX,
        u32::MAX <= usize::MAX,
    ensures
        chunk::chunks_from(stream(list), 0, Seq::empty()) == found,
        are_chunks(found, list, 0),
{
    assert(Seq::<u8>::empty() + stream(list) =~= stream(list));
    let found = lemma_chunks(Seq::empty(), list, Seq::empty());
    assert(Seq::<ChunkBoundary>::empty() + found =~= found);
    found
}

/// Sample flags: what the sample depends on, between what stands above and below in the word.
pub open spec fn sample_flags(above: nat, depends_on: nat, below: nat) -> u32 {
    (above * 0x400_0000 + depends_on * 0x100_0000 + below) as u32
}

/// The samples of a track run whose first sample has flags of its own.
pub open spec fn run_with_first(flags: u32, count: Seq<u8>, offset: Seq<u8>, first: u32, rest: Seq<u8>) -> Seq<
    u8,
> {
    cmaf::full_boxed(box_type::TRUN@, 0, flags, count + offset + bytes::bytes32(first) + rest)
}

/// A fragment whose run gives flags for its first sample can be started with exactly where that
/// sample depends on no other, whatever the defaults of the track are.
#[verifier::rlimit(40)]
pub proof fn first_flags_decide(
    flags: u32,
    count: Seq<u8>,
    offset: Seq<u8>,
    above: nat,
    depends_on: nat,
    below: nat,
    rest: Seq<u8>,
    after: Seq<u8>,
    default_flags: Option<u32>,
)
    requires
        flags < 0x100_0000,
        flags & 0x04 != 0,
        count.len() == 4,
        offset.len() == (if flags & 0x01 != 0 {
            4nat
        } else {
            0nat
        }),
        above < 64,
        depends_on < 4,
        below < 0x100_0000,
        rest.len() <= 0x7fff_ffff,
    ensures
        chunk::traf_independent(
            run_with_first(flags, count, offset, sample_flags(above, depends_on, below), rest)
                + after,
            0,
            default_flags,
        ) <==> depends_on == 2,
{
    let first = sample_flags(above, depends_on, below);
    let run = run_with_first(flags, count, offset, first, rest);
    let s = run + after;
    let size = (count + offset + bytes::bytes32(first) + rest).len() + 12;
    assert(s.subrange(0, 4) =~= bytes::bytes32(size as u32));
    bytes::lemma_be32_of_bytes32(s, 0, size as u32);
    assert(chunk::code_of(s, 0) =~= box_type::TRUN@);
    assert(s.subrange(9, 12) =~= bytes::bytes24(flags));
    lemma_flags_read(s, 9, flags);
    let at = 16 + offset.len() as int;
    assert(s.subrange(at, at + 4) =~= bytes::bytes32(first));
    bytes::lemma_be32_of_bytes32(s, at, first);
    assert(chunk::trun_first_flags(s, 0) == Some(first));
    lemma_depends(above, depends_on, below);
    lemma_no_tfhd();
}

proof fn lemma_no_tfhd()
    ensures
        box_type::TRUN@ != box_type::TFHD@,
{
    assert(box_type::TRUN@[1] == 0x72 && box_type::TFHD@[1] == 0x66);
}

proof fn lemma_flags_read(s: Seq<u8>, i: int, flags: u32)
    requires
        0 <= i,
        i + 3 <= s.len(),
        flags < 0x100_0000,
        s.subrange(i, i + 3) == bytes::bytes24(flags),
    ensures
        bytes::be24(s, i) == flags,
{
    let t = s.subrange(i, i + 3);
    assert(t[0] == s[i] && t[1] == s[i + 1] && t[2] == s[i + 2]);
}

/// An optional field that stands where its flag is set.
pub open spec fn present(field: Seq<u8>, flags: u32, mask: u32, size: nat) -> bool {
    field.len() == (if flags & mask != 0 {
        size
    } else {
        0
    })
}

proof fn lemma_depends(above: nat, depends_on: nat, below: nat)
    requires
        above < 64,
        depends_on < 4,
        below < 0x100_0000,
    ensures
        chunk::sync_flags(sample_flags(above, depends_on, below)) <==> depends_on == 2,
{
}

/// The header of a track with default flags.
pub open spec fn header_with_default(
    flags: u32,
    track: Seq<u8>,
    fields: Seq<u8>,
    word: u32,
) -> Seq<u8> {
    cmaf::full_boxed(box_type::TFHD@, 0, flags, track + fields + bytes::bytes32(word))
}

proof fn lemma_default_read(flags: u32, track: Seq<u8>, fields: Seq<u8>, word: u32)
    requires
        flags < 0x100_0000,
        flags & 0x20 != 0,
        track.len() == 4,
        fields.len() == (if flags & 0x01 != 0 {
            8int
        } else {
            0
        }) + (if flags & 0x02 != 0 {
            4int
        } else {
            0
        }) + (if flags & 0x08 != 0 {
            4int
        } else {
            0
        }) + (if flags & 0x10 != 0 {
            4int
        } else {
            0
        }),
    ensures
        ({
            let s = header_with_default(flags, track, fields, word);
            &&& chunk::box_fits(s, 0)
            &&& bytes::be32(s, 0) == s.len()
            &&& chunk::code_of(s, 0) == box_type::TFHD@
            &&& chunk::tfhd_default_flags(s, 0) == Some(word)
        }),
{
    let body = track + fields + bytes::bytes32(word);
    let s = header_with_default(flags, track, fields, word);
    let len = body.len() + 12;
    assert(s.subrange(0, 4) =~= bytes::bytes32(len as u32));
    bytes::lemma_be32_of_bytes32(s, 0, len as u32);
    assert(chunk::code_of(s, 0) =~= box_type::TFHD@);
    assert(s.subrange(9, 12) =~= bytes::bytes24(flags));
    lemma_flags_read(s, 9, flags);
    let at = 16 + fields.len() as int;
    assert(s.subrange(at, at + 4) =~= bytes::bytes32(word));
    bytes::lemma_be32_of_bytes32(s, at, word);
}

/// Without another box the default flags decide.
proof fn lemma_header_alone(s: Seq<u8>, word: u32)
    requires
        chunk::box_fits(s, 0),
        bytes::be32(s, 0) == s.len(),
        chunk::code_of(s, 0) == box_type::TFHD@,
        chunk::tfhd_default_flags(s, 0) == Some(word),
    ensures
        chunk::traf_independent(s, 0, None) == chunk::sync_flags(word),
{
    let end = s.len() as int;
    assert(!chunk::box_fits(s, end));
    assert(chunk::traf_independent(s, end, Some(word)) == chunk::sync_flags(word));
}

/// A fragment of a track whose header gives default flags, without a run that says more, can be
/// started with exactly where its samples depend on no other, whichever other fields the header
/// has.
pub proof fn default_flags_decide(
    flags: u32,
    track: Seq<u8>,
    base: Seq<u8>,
    entry: Seq<u8>,
    duration: Seq<u8>,
    size: Seq<u8>,
    above: nat,
    depends_on: nat,
    below: nat,
)
    requires
        flags < 0x100_0000,
        flags & 0x20 != 0,
        track.len() == 4,
        present(base, flags, 0x01, 8),
        present(entry, flags, 0x02, 4),
        present(duration, flags, 0x08, 4),
        present(size, flags, 0x10, 4),
        above < 64,
        depends_on < 4,
        below < 0x100_0000,
    ensures
        chunk::traf_independent(
            header_with_default(
                flags,
                track,
                base + entry + duration + size,
                sample_flags(above, depends_on, below),
            ),
            0,
            None,
        ) <==> depends_on == 2,
{
    let word = sample_flags(above, depends_on, below);
    let fields = base + entry + duration + size;
    lemma_default_read(flags, track, fields, word);
    lemma_header_alone(header_with_default(flags, track, fields, word), word);
    lemma_depends(above, depends_on, below);
}

} // verus!
