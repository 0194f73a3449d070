//! How long boxes are measured, and what the adaptation field of a packet says.

use crate::bytes;
use crate::media::cmaf;
use crate::media::ts;
use vstd::prelude::*;

verus! {

/// A box whose size field is one is as long as the 64-bit number behind its type says.
pub proof fn long_boxes_are_measured(before: Seq<u8>, code: Seq<u8>, size: u64, after: Seq<u8>)
    requires
        code.len() == 4,
        before.len() <= u64::MAX,
    ensures
        cmaf::header_at(
            before + bytes::bytes32(1) + code + bytes::bytes64(size) + after,
            before.len() as int,
        ) matches Ok(h) && {
            &&& h.size == size
            &&& h.box_type@ == code
            &&& h.offset == before.len()
            &&& h.header_size == 16
        },
{
    let s = before + bytes::bytes32(1) + code + bytes::bytes64(size) + after;
    let n = before.len() as int;
    assert(s.subrange(n, n + 4) =~= bytes::bytes32(1));
    bytes::lemma_be32_of_bytes32(s, n, 1);
    assert(s.subrange(n + 8, n + 16) =~= bytes::bytes64(size));
    bytes::lemma_be64_of_bytes64(s, n + 8, size);
    assert(s.subrange(n + 4, n + 8) =~= code);
    let h = cmaf::header_at(s, n)->Ok_0;
    assert(h.box_type@ =~= s.subrange(n + 4, n + 8));
}

/// A box whose size field is zero reaches to the end.
pub proof fn open_boxes_reach_the_end(before: Seq<u8>, code: Seq<u8>, after: Seq<u8>)
    requires
        code.len() == 4,
        before.len() + after.len() + 8 <= u64::MAX,
    ensures
        cmaf::header_at(before + bytes::bytes32(0) + code + after, before.len() as int) matches Ok(
            h,
        ) && {
            &&& h.size == 8 + after.len()
            &&& h.box_type@ == code
            &&& h.offset == before.len()
            &&& h.header_size == 8
        },
{
    let s = before + bytes::bytes32(0) + code + after;
    let n = before.len() as int;
    assert(s.subrange(n, n + 4) =~= bytes::bytes32(0));
    bytes::lemma_be32_of_bytes32(s, n, 0);
    assert(s.subrange(n + 4, n + 8) =~= code);
    let h = cmaf::header_at(s, n)->Ok_0;
    assert(h.box_type@ =~= s.subrange(n + 4, n + 8));
}

/// Data that is too short for a header, or for the long one that it announces, is refused.
pub proof fn short_headers_are_refused(s: Seq<u8>, at: int)
    requires
        0 <= at,
    ensures
        cmaf::header_at(s, at) is Err <==> at + 8 > s.len() || (bytes::be32(s, at) == 1 && at + 16
            > s.len()),
{
}

/// An adaptation field tells whether decoding can start at its packet, and the base of the
/// program clock where it has one: 33 bits, of which the last is the first of its byte.
pub proof fn adaptation_fields_are_read(
    s: Seq<u8>,
    above: nat,
    start: bool,
    middle: nat,
    clock: bool,
    below: nat,
    base: nat,
    rest: nat,
)
    requires
        s.len() >= 8,
        s[0] > 0,
        above < 2,
        middle < 2,
        below < 16,
        rest < 128,
        base < 0x2_0000_0000,
        s[1] == 128 * above + (if start {
            64nat
        } else {
            0nat
        }) + 32 * middle + (if clock {
            16nat
        } else {
            0nat
        }) + below,
        bytes::be32(s, 2) == base / 2,
        s[6] == 128 * (base % 2) + rest,
    ensures
        ({
            let f = ts::adaptation_of(s);
            &&& f.length == s[0]
            &&& f.random_access_indicator == start
            &&& f.pcr is Some == clock
            &&& f.pcr matches Some(t) ==> t == base
        }),
{
    assert(((s[1] / 64) % 2 == 1) == start);
    assert(((s[1] / 16) % 2 == 1) == clock);
    assert(s[6] / 128 == base % 2);
    let t = s[2] * 0x200_0000 + s[3] * 0x2_0000 + s[4] * 0x200 + s[5] * 2 + s[6] / 128;
    assert(t == 2 * (bytes::be32(s, 2) as int) + base % 2);
    assert(t == base);
}

} // verus!
