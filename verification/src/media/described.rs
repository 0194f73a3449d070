//! What a synthesized init segment says of its tracks.

use crate::bytes;
use crate::error::ErrorView;
use crate::media;
use crate::media::box_type;
use crate::media::cmaf;
use crate::media::codec;
use crate::media::codec::TrackView;
use crate::media::round_trip;
use crate::media::synthesis;
use crate::media::transmux;
use crate::media::transmux::{AudioView, VideoView};
use crate::media::TrackType;
use crate::text;
use vstd::prelude::*;

verus! {

// Children.

proof fn lemma_header_found(
    s: Seq<u8>,
    parts: Seq<Seq<u8>>,
    i: int,
    k: int,
    code: Seq<u8>,
)
    requires
        round_trip::made_of(s, parts),
        s.len() <= u64::MAX,
        0 <= i <= k < parts.len(),
        round_trip::type_of(parts[k]) == code,
        forall|j: int| 0 <= j < k ==> round_trip::type_of(#[trigger] parts[j]) != code,
    ensures
        cmaf::find_header(cmaf::run(s).headers, i, code) == Some(cmaf::run(s).headers[k]),
        round_trip::stands_for(s, cmaf::run(s).headers[k], parts[k]),
    decreases k - i,
{
    round_trip::run_hands_out_every_box(s, parts);
    assert(round_trip::stands_for(s, cmaf::run(s).headers[i], parts[i]));
    assert(round_trip::stands_for(s, cmaf::run(s).headers[k], parts[k]));
    if i < k {
        lemma_header_found(s, parts, i + 1, k, code);
    }
}

/// The first box of a type is the child that is found.
proof fn lemma_child_found(s: Seq<u8>, parts: Seq<Seq<u8>>, k: int, code: Seq<u8>)
    requires
        round_trip::made_of(s, parts),
        s.len() <= u64::MAX,
        0 <= k < parts.len(),
        round_trip::type_of(parts[k]) == code,
        forall|j: int| 0 <= j < k ==> round_trip::type_of(#[trigger] parts[j]) != code,
    ensures
        codec::child_body(s, code) == Some(round_trip::payload_of(parts[k])),
{
    lemma_header_found(s, parts, 0, k, code);
}

/// The children of two boxes.
proof fn lemma_two_children(a: Seq<u8>, b: Seq<u8>)
    requires
        round_trip::whole_box(a),
        round_trip::whole_box(b),
        round_trip::type_of(a) != round_trip::type_of(b),
        a.len() + b.len() <= u64::MAX,
    ensures
        codec::child_body(a + b, round_trip::type_of(a)) == Some(round_trip::payload_of(a)),
        codec::child_body(a + b, round_trip::type_of(b)) == Some(round_trip::payload_of(b)),
{
    let parts = seq![a, b];
    synthesis::lemma_joined_two(a, b);
    assert(round_trip::made_of(a + b, parts));
    lemma_child_found(a + b, parts, 0, round_trip::type_of(a));
    lemma_child_found(a + b, parts, 1, round_trip::type_of(b));
}

/// The children of three boxes.
proof fn lemma_three_children(a: Seq<u8>, b: Seq<u8>, c: Seq<u8>)
    requires
        round_trip::whole_box(a),
        round_trip::whole_box(b),
        round_trip::whole_box(c),
        round_trip::type_of(a) != round_trip::type_of(b),
        round_trip::type_of(a) != round_trip::type_of(c),
        round_trip::type_of(b) != round_trip::type_of(c),
        a.len() + b.len() + c.len() <= u64::MAX,
    ensures
        codec::child_body(a + b + c, round_trip::type_of(a)) == Some(round_trip::payload_of(a)),
        codec::child_body(a + b + c, round_trip::type_of(b)) == Some(round_trip::payload_of(b)),
        codec::child_body(a + b + c, round_trip::type_of(c)) == Some(round_trip::payload_of(c)),
{
    let parts = seq![a, b, c];
    synthesis::lemma_joined_three(a, b, c);
    assert(round_trip::made_of(a + b + c, parts));
    lemma_child_found(a + b + c, parts, 0, round_trip::type_of(a));
    lemma_child_found(a + b + c, parts, 1, round_trip::type_of(b));
    lemma_child_found(a + b + c, parts, 2, round_trip::type_of(c));
}

// Headers.

/// Whether `p` is a whole box of a type.
spec fn box_of(p: Seq<u8>, code: Seq<u8>) -> bool {
    round_trip::whole_box(p) && round_trip::type_of(p) == code
}

proof fn lemma_full_box(code: Seq<u8>, version: u8, flags: u32, body: Seq<u8>)
    requires
        code.len() == 4,
        body.len() + 12 <= u32::MAX,
    ensures
        box_of(cmaf::full_boxed(code, version, flags, body), code),
        round_trip::payload_of(cmaf::full_boxed(code, version, flags, body)) == seq![version]
            + bytes::bytes24(flags) + body,
        cmaf::full_boxed(code, version, flags, body).len() == body.len() + 12,
{
    synthesis::lemma_full_boxed(code, version, flags, body);
    round_trip::boxed_reads_back(code, seq![version] + bytes::bytes24(flags) + body);
}

/// The field after the times of a full box of version 0.
proof fn lemma_field_after_times(flags: u32, v: u32, rest: Seq<u8>)
    ensures
        codec::after_times(
            seq![0u8] + bytes::bytes24(flags) + (bytes::zeros(8) + bytes::bytes32(v) + rest),
        ) == v,
{
    let s = seq![0u8] + bytes::bytes24(flags) + (bytes::zeros(8) + bytes::bytes32(v) + rest);
    assert(s.len() == 16 + rest.len());
    assert(s.subrange(12, 16) =~= bytes::bytes32(v));
    bytes::lemma_be32_of_bytes32(s, 12, v);
}

#[verifier::rlimit(60)]
proof fn lemma_tkhd_says(track_id: u32, width: u32, height: u32, is_audio: bool)
    ensures
        ({
            let b = transmux::tkhd_box(track_id, width, height, is_audio);
            &&& box_of(b, box_type::TKHD@)
            &&& codec::after_times(round_trip::payload_of(b)) == track_id
            &&& b.len() == 92
        }),
{
    let rest = bytes::zeros(18) + bytes::bytes16(
        if is_audio {
            1
        } else {
            0
        },
    ) + bytes::bytes16(
        if is_audio {
            0x100
        } else {
            0
        },
    ) + bytes::zeros(2) + transmux::identity_matrix() + bytes::bytes32(transmux::fixed16(width))
        + bytes::bytes32(transmux::fixed16(height));
    let body = bytes::zeros(8) + bytes::bytes32(track_id) + rest;
    assert(transmux::tkhd_box(track_id, width, height, is_audio) =~= cmaf::full_boxed(
        box_type::TKHD@,
        0,
        3,
        body,
    ));
    assert(body.len() == 80);
    lemma_full_box(box_type::TKHD@, 0, 3, body);
    lemma_field_after_times(3, track_id, rest);
}

proof fn lemma_mdhd_says(timescale: u32)
    ensures
        ({
            let b = transmux::mdhd_box(timescale);
            &&& box_of(b, box_type::MDHD@)
            &&& codec::after_times(round_trip::payload_of(b)) == timescale
            &&& b.len() == 32
        }),
{
    let rest = bytes::zeros(4) + bytes::bytes16(0x55C4) + bytes::zeros(2);
    let body = bytes::zeros(8) + bytes::bytes32(timescale) + rest;
    assert(transmux::mdhd_box(timescale) =~= cmaf::full_boxed(box_type::MDHD@, 0, 0, body));
    lemma_full_box(box_type::MDHD@, 0, 0, body);
    lemma_field_after_times(0, timescale, rest);
}

proof fn lemma_hdlr_says(handler: Seq<u8>, name: Seq<char>)
    requires
        handler.len() == 4,
        transmux::hdlr_box(handler, name).len() <= u32::MAX,
    ensures
        ({
            let b = transmux::hdlr_box(handler, name);
            &&& box_of(b, box_type::HDLR@)
            &&& codec::hdlr_track_type(round_trip::payload_of(b)) == media::handler_track_type(
                handler,
            )
        }),
{
    let body = bytes::zeros(4) + handler + bytes::zeros(12) + cmaf::utf8(name) + seq![0u8];
    assert(transmux::hdlr_box(handler, name).len() == body.len() + 12);
    lemma_full_box(box_type::HDLR@, 0, 0, body);
    let s = seq![0u8] + bytes::bytes24(0) + body;
    assert(s.subrange(8, 12) =~= handler);
}

// Sample descriptions.

proof fn lemma_tables()
    ensures
        round_trip::whole_box(transmux::empty_table(transmux::STTS@)),
        round_trip::whole_box(transmux::empty_table(transmux::STSC@)),
        round_trip::whole_box(transmux::empty_stsz()),
        round_trip::whole_box(transmux::empty_table(transmux::STCO@)),
{
    lemma_full_box(transmux::STTS@, 0, 0, bytes::bytes32(0));
    lemma_full_box(transmux::STSC@, 0, 0, bytes::bytes32(0));
    lemma_full_box(transmux::STSZ@, 0, 0, bytes::zeros(8));
    lemma_full_box(transmux::STCO@, 0, 0, bytes::bytes32(0));
}

/// What a sample table of five boxes says.
proof fn lemma_stbl_of(stsd: Seq<u8>, a: Seq<u8>, b: Seq<u8>, c: Seq<u8>, d: Seq<u8>)
    requires
        box_of(stsd, box_type::STSD@),
        round_trip::whole_box(a),
        round_trip::whole_box(b),
        round_trip::whole_box(c),
        round_trip::whole_box(d),
        cmaf::boxed(box_type::STBL@, stsd + a + b + c + d).len() <= u32::MAX,
    ensures
        ({
            let x = cmaf::boxed(box_type::STBL@, stsd + a + b + c + d);
            &&& box_of(x, box_type::STBL@)
            &&& codec::child_body(round_trip::payload_of(x), box_type::STSD@) == Some(
                round_trip::payload_of(stsd),
            )
        }),
{
    let s = stsd + a + b + c + d;
    assert(cmaf::boxed(box_type::STBL@, s).len() == s.len() + 8);
    round_trip::boxed_reads_back(box_type::STBL@, s);
    lemma_first_of_five(stsd, a, b, c, d);
}

/// A sample table is no shorter than the sample description in it.
proof fn lemma_stbl_length(body: Seq<u8>, a: Seq<u8>, b: Seq<u8>, c: Seq<u8>, d: Seq<u8>)
    ensures
        ({
            let stsd = cmaf::full_boxed(box_type::STSD@, 0, 0, body);
            cmaf::boxed(box_type::STBL@, stsd + a + b + c + d).len() >= body.len() + 12
        }),
{
}

#[verifier::spinoff_prover]
#[verifier::rlimit(60)]
proof fn lemma_stbl_with(entry: Seq<u8>, a: Seq<u8>, b: Seq<u8>, c: Seq<u8>, d: Seq<u8>)
    requires
        round_trip::whole_box(a),
        round_trip::whole_box(b),
        round_trip::whole_box(c),
        round_trip::whole_box(d),
        cmaf::boxed(
            box_type::STBL@,
            cmaf::full_boxed(box_type::STSD@, 0, 0, bytes::bytes32(1) + entry) + a + b + c + d,
        ).len() <= u32::MAX,
    ensures
        ({
            let x = cmaf::boxed(
                box_type::STBL@,
                cmaf::full_boxed(box_type::STSD@, 0, 0, bytes::bytes32(1) + entry) + a + b + c + d,
            );
            &&& box_of(x, box_type::STBL@)
            &&& codec::child_body(round_trip::payload_of(x), box_type::STSD@) == Some(
                seq![0u8] + bytes::bytes24(0) + (bytes::bytes32(1) + entry),
            )
            &&& entry.len() <= x.len()
        }),
{
    let body = bytes::bytes32(1) + entry;
    lemma_stbl_length(body, a, b, c, d);
    lemma_full_box(box_type::STSD@, 0, 0, body);
    lemma_stbl_of(cmaf::full_boxed(box_type::STSD@, 0, 0, body), a, b, c, d);
}

/// The sample description in a synthesized sample table.
#[verifier::spinoff_prover]
#[verifier::rlimit(60)]
proof fn lemma_stbl_says(entry: Seq<u8>)
    requires
        transmux::stbl_box(entry).len() <= u32::MAX,
    ensures
        ({
            let b = transmux::stbl_box(entry);
            &&& box_of(b, box_type::STBL@)
            &&& codec::child_body(round_trip::payload_of(b), box_type::STSD@) == Some(
                seq![0u8] + bytes::bytes24(0) + (bytes::bytes32(1) + entry),
            )
            &&& entry.len() <= b.len()
        }),
{
    lemma_tables();
    lemma_stbl_with(
        entry,
        transmux::empty_table(transmux::STTS@),
        transmux::empty_table(transmux::STSC@),
        transmux::empty_stsz(),
        transmux::empty_table(transmux::STCO@),
    );
}

#[verifier::rlimit(60)]
proof fn lemma_first_of_five(p: Seq<u8>, a: Seq<u8>, b: Seq<u8>, c: Seq<u8>, d: Seq<u8>)
    requires
        round_trip::whole_box(p),
        round_trip::whole_box(a),
        round_trip::whole_box(b),
        round_trip::whole_box(c),
        round_trip::whole_box(d),
        (p + a + b + c + d).len() <= u64::MAX,
    ensures
        codec::child_body(p + a + b + c + d, round_trip::type_of(p)) == Some(
            round_trip::payload_of(p),
        ),
{
    let parts = seq![p, a, b, c, d];
    let s = p + a + b + c + d;
    assert(cmaf::joined(parts, 0) == Seq::<u8>::empty());
    assert(cmaf::joined(parts, 1) =~= p);
    assert(cmaf::joined(parts, 2) == p + a);
    assert(cmaf::joined(parts, 3) == p + a + b);
    assert(cmaf::joined(parts, 4) == p + a + b + c);
    assert(cmaf::joined(parts, 5) == s);
    assert(round_trip::made_of(s, parts));
    lemma_child_found(s, parts, 0, round_trip::type_of(p));
}

/// The first entry of a sample description.
proof fn lemma_stsd_says(stsd: Seq<u8>, entry: Seq<u8>)
    requires
        stsd == seq![0u8] + bytes::bytes24(0) + (bytes::bytes32(1) + entry),
        round_trip::whole_box(entry),
        entry.len() <= u64::MAX,
    ensures
        stsd.len() >= 16,
        bytes::be32(stsd, 4) == 1,
        stsd.skip(8) == entry,
        match cmaf::header_at(stsd.skip(8), 0) {
            Ok(h) => round_trip::stands_for(entry, h, entry),
            Err(_) => false,
        },
{
    round_trip::lemma_whole_box(entry);
    assert(stsd.subrange(4, 8) =~= bytes::bytes32(1));
    bytes::lemma_be32_of_bytes32(stsd, 4, 1);
    assert(stsd.skip(8) =~= entry);
    let none = Seq::<u8>::empty();
    assert(none + entry + none =~= entry);
    round_trip::lemma_header_moves(none, entry, none);
}

/// What a media box says of its sample entry.
proof fn lemma_codec_of(mdia: Seq<u8>, minf: Seq<u8>, stbl: Seq<u8>, stsd: Seq<u8>, entry: Seq<u8>)
    requires
        codec::child_body(mdia, box_type::MINF@) == Some(minf),
        codec::child_body(minf, box_type::STBL@) == Some(stbl),
        codec::child_body(stbl, box_type::STSD@) == Some(stsd),
        stsd == seq![0u8] + bytes::bytes24(0) + (bytes::bytes32(1) + entry),
        round_trip::whole_box(entry),
        entry.len() <= u64::MAX,
        !codec::encrypted_entry(round_trip::type_of(entry)),
    ensures
        codec::codec_and_kid(mdia) == Ok::<(Seq<char>, Option<Seq<u8>>), ErrorView>(
            (
                codec::codec_string(
                    round_trip::type_of(entry),
                    round_trip::payload_of(entry),
                ),
                None,
            ),
        ),
{
    lemma_stsd_says(stsd, entry);
}

// Tracks.

/// What the boxes of a track say.
#[verifier::spinoff_prover]
#[verifier::rlimit(60)]
proof fn lemma_track_of(
    tkhd: Seq<u8>,
    mdhd: Seq<u8>,
    hdlr: Seq<u8>,
    header: Seq<u8>,
    dinf: Seq<u8>,
    stbl: Seq<u8>,
    entry: Seq<u8>,
)
    requires
        box_of(tkhd, box_type::TKHD@),
        box_of(mdhd, box_type::MDHD@),
        box_of(hdlr, box_type::HDLR@),
        box_of(header, transmux::VMHD@) || box_of(header, transmux::SMHD@),
        box_of(dinf, transmux::DINF@),
        box_of(stbl, box_type::STBL@),
        codec::child_body(round_trip::payload_of(stbl), box_type::STSD@) == Some(
            seq![0u8] + bytes::bytes24(0) + (bytes::bytes32(1) + entry),
        ),
        round_trip::whole_box(entry),
        !codec::encrypted_entry(round_trip::type_of(entry)),
        entry.len() <= u64::MAX,
        tkhd.len() + mdhd.len() + hdlr.len() + header.len() + dinf.len() + stbl.len() + 16
            <= u32::MAX,
    ensures
        codec::track_of(
            tkhd + cmaf::boxed(
                box_type::MDIA@,
                mdhd + hdlr + cmaf::boxed(box_type::MINF@, header + dinf + stbl),
            ),
        ) == Ok::<Option<TrackView>, ErrorView>(
            Some(
                TrackView {
                    track_type: codec::hdlr_track_type(round_trip::payload_of(hdlr)),
                    track_id: codec::after_times(round_trip::payload_of(tkhd)),
                    codec_string: codec::codec_string(
                        round_trip::type_of(entry),
                        round_trip::payload_of(entry),
                    ),
                    timescale: codec::after_times(round_trip::payload_of(mdhd)),
                    kid: None,
                },
            ),
        ),
{
    let minf = header + dinf + stbl;
    let minf_box = cmaf::boxed(box_type::MINF@, minf);
    let mdia = mdhd + hdlr + minf_box;
    let mdia_box = cmaf::boxed(box_type::MDIA@, mdia);
    lemma_track_codes();
    assert(minf_box.len() == minf.len() + 8);
    assert(mdia_box.len() == mdia.len() + 8);
    round_trip::boxed_reads_back(box_type::MINF@, minf);
    round_trip::boxed_reads_back(box_type::MDIA@, mdia);
    lemma_three_children(header, dinf, stbl);
    lemma_three_children(mdhd, hdlr, minf_box);
    lemma_two_children(tkhd, mdia_box);
    lemma_codec_of(
        mdia,
        minf,
        round_trip::payload_of(stbl),
        seq![0u8] + bytes::bytes24(0) + (bytes::bytes32(1) + entry),
        entry,
    );
}

#[verifier::rlimit(60)]
proof fn lemma_track_codes()
    ensures
        transmux::VMHD@ != transmux::DINF@,
        transmux::SMHD@ != transmux::DINF@,
        transmux::VMHD@ != box_type::STBL@,
        transmux::SMHD@ != box_type::STBL@,
        transmux::DINF@ != box_type::STBL@,
        box_type::MDHD@ != box_type::HDLR@,
        box_type::MDHD@ != box_type::MINF@,
        box_type::HDLR@ != box_type::MINF@,
        box_type::TKHD@ != box_type::MDIA@,
{
    assert(transmux::VMHD@[0] != transmux::DINF@[0]);
    assert(transmux::SMHD@[0] != transmux::DINF@[0]);
    assert(transmux::VMHD@[0] != box_type::STBL@[0]);
    assert(transmux::SMHD@[1] != box_type::STBL@[1]);
    assert(transmux::DINF@[0] != box_type::STBL@[0]);
    assert(box_type::MDHD@[0] != box_type::HDLR@[0]);
    assert(box_type::MDHD@[1] != box_type::MINF@[1]);
    assert(box_type::HDLR@[0] != box_type::MINF@[0]);
    assert(box_type::TKHD@[0] != box_type::MDIA@[0]);
}

proof fn lemma_media_headers()
    ensures
        box_of(transmux::vmhd_box(), transmux::VMHD@),
        transmux::vmhd_box().len() == 20,
        box_of(transmux::smhd_box(), transmux::SMHD@),
        transmux::smhd_box().len() == 16,
        box_of(transmux::dinf_box(), transmux::DINF@),
        transmux::dinf_box().len() == 36,
{
    lemma_full_box(transmux::VMHD@, 0, 1, bytes::zeros(8));
    lemma_full_box(transmux::SMHD@, 0, 0, bytes::zeros(4));
    let url = cmaf::full_boxed(transmux::URL@, 0, 1, Seq::empty());
    assert(url.len() == 12);
    let dref = cmaf::full_boxed(transmux::DREF@, 0, 0, bytes::bytes32(1) + url);
    assert(dref.len() == 28);
    round_trip::boxed_reads_back(transmux::DINF@, dref);
}

/// A synthesized track with a sample entry.
spec fn made_track(
    tkhd: Seq<u8>,
    mdhd: Seq<u8>,
    hdlr: Seq<u8>,
    header: Seq<u8>,
    entry: Seq<u8>,
) -> Seq<u8> {
    transmux::trak_box(tkhd, mdhd, hdlr, header, transmux::stbl_box(entry))
}

#[verifier::spinoff_prover]
#[verifier::rlimit(60)]
proof fn lemma_made_track(
    tkhd: Seq<u8>,
    mdhd: Seq<u8>,
    hdlr: Seq<u8>,
    header: Seq<u8>,
    entry: Seq<u8>,
)
    requires
        box_of(tkhd, box_type::TKHD@),
        box_of(mdhd, box_type::MDHD@),
        box_of(hdlr, box_type::HDLR@),
        box_of(header, transmux::VMHD@) || box_of(header, transmux::SMHD@),
        round_trip::whole_box(entry),
        !codec::encrypted_entry(round_trip::type_of(entry)),
        made_track(tkhd, mdhd, hdlr, header, entry).len() <= u32::MAX,
    ensures
        ({
            let b = made_track(tkhd, mdhd, hdlr, header, entry);
            &&& box_of(b, box_type::TRAK@)
            &&& codec::track_of(round_trip::payload_of(b)) == Ok::<Option<TrackView>, ErrorView>(
                Some(
                    TrackView {
                        track_type: codec::hdlr_track_type(round_trip::payload_of(hdlr)),
                        track_id: codec::after_times(round_trip::payload_of(tkhd)),
                        codec_string: codec::codec_string(
                            round_trip::type_of(entry),
                            round_trip::payload_of(entry),
                        ),
                        timescale: codec::after_times(round_trip::payload_of(mdhd)),
                        kid: None,
                    },
                ),
            )
        }),
{
    lemma_media_headers();
    lemma_trak_length(
        tkhd,
        mdhd,
        hdlr,
        header,
        transmux::dinf_box(),
        transmux::stbl_box(entry),
    );
    lemma_stbl_says(entry);
    lemma_track_of(
        tkhd,
        mdhd,
        hdlr,
        header,
        transmux::dinf_box(),
        transmux::stbl_box(entry),
        entry,
    );
}

/// A track is a box around what is in it.
proof fn lemma_trak_length(
    tkhd: Seq<u8>,
    mdhd: Seq<u8>,
    hdlr: Seq<u8>,
    header: Seq<u8>,
    dinf: Seq<u8>,
    stbl: Seq<u8>,
)
    requires
        ({
            let minf = cmaf::boxed(box_type::MINF@, header + dinf + stbl);
            let mdia = cmaf::boxed(box_type::MDIA@, mdhd + hdlr + minf);
            cmaf::boxed(box_type::TRAK@, tkhd + mdia).len() <= u32::MAX
        }),
    ensures
        ({
            let minf = cmaf::boxed(box_type::MINF@, header + dinf + stbl);
            let mdia = cmaf::boxed(box_type::MDIA@, mdhd + hdlr + minf);
            let b = cmaf::boxed(box_type::TRAK@, tkhd + mdia);
            &&& box_of(b, box_type::TRAK@)
            &&& round_trip::payload_of(b) == tkhd + mdia
            &&& tkhd.len() + mdhd.len() + hdlr.len() + header.len() + dinf.len() + stbl.len() + 16
                <= u32::MAX
        }),
{
    let minf = cmaf::boxed(box_type::MINF@, header + dinf + stbl);
    let mdia = cmaf::boxed(box_type::MDIA@, mdhd + hdlr + minf);
    assert(minf.len() == header.len() + dinf.len() + stbl.len() + 8);
    assert(mdia.len() == mdhd.len() + hdlr.len() + minf.len() + 8);
    round_trip::boxed_reads_back(box_type::TRAK@, tkhd + mdia);
}

// Codec strings.

proof fn lemma_config_found(p: Seq<u8>, i: int, n: int, code: Seq<u8>)
    requires
        0 <= i <= n,
        codec::code_at(p, n, code),
        codec::payload_at(p, n) is Some,
        forall|k: int|
            0 <= k < n ==> !(#[trigger] codec::code_at(p, k, code) && codec::payload_at(p, k)
                is Some),
    ensures
        codec::config_box(p, i, code) == codec::payload_at(p, n),
    decreases n - i,
{
    if i < n {
        assert(!(codec::code_at(p, i, code) && codec::payload_at(p, i) is Some));
        lemma_config_found(p, i + 1, n, code);
    }
}

/// A box behind `head` is read where it stands.
#[verifier::rlimit(60)]
proof fn lemma_config_stands(head: Seq<u8>, code: Seq<u8>, body: Seq<u8>)
    requires
        code.len() == 4,
        body.len() + 8 <= u32::MAX,
    ensures
        ({
            let p = head + cmaf::boxed(code, body);
            &&& codec::code_at(p, head.len() as int, code)
            &&& codec::payload_at(p, head.len() as int) == Some(body)
        }),
{
    let b = cmaf::boxed(code, body);
    let p = head + b;
    let n = head.len() as int;
    let size = (body.len() + 8) as u32;
    assert(b.len() == size);
    assert(p.subrange(n, n + 4) =~= bytes::bytes32(size));
    bytes::lemma_be32_of_bytes32(p, n, size);
    assert(p.subrange(n + 4, n + 8) =~= code);
    assert(p.subrange(n + 8, n + size) =~= body);
}

/// The four bytes at a place where a type stands.
proof fn lemma_code_bytes(p: Seq<u8>, k: int, code: Seq<u8>)
    requires
        0 <= k,
        codec::code_at(p, k, code),
    ensures
        k + 8 <= p.len(),
        p[k + 4] == code[0],
        p[k + 5] == code[1],
        p[k + 6] == code[2],
        p[k + 7] == code[3],
{
    let c = p.subrange(k + 4, k + 8);
    assert(c[0] == p[k + 4] && c[1] == p[k + 5] && c[2] == p[k + 6] && c[3] == p[k + 7]);
}

/// What stands in front of the stream descriptor in an audio sample entry.
spec fn audio_head(a: AudioView) -> Seq<u8> {
    bytes::zeros(6) + bytes::bytes16(1) + bytes::zeros(8) + bytes::bytes16(a.channel_count as u16)
        + bytes::bytes16(16) + bytes::zeros(4) + bytes::bytes32(transmux::fixed16(a.sample_rate))
}

/// The descriptors in a synthesized stream descriptor.
spec fn descriptors(a: AudioView) -> Seq<u8> {
    seq![0x03u8, 25u8, 0x00u8, 0x01u8, 0x00u8, 0x04u8, 17u8, 0x40u8, 0x15u8] + bytes::zeros(3)
        + bytes::bytes32(128000) + bytes::bytes32(128000) + seq![0x05u8, 2u8]
        + transmux::audio_specific(a.aac_profile, a.sample_rate, a.channel_count) + seq![
        0x06u8,
        0x01u8,
        0x02u8,
    ]
}

proof fn lemma_no_tag_before(d: Seq<u8>, i: int, n: int)
    requires
        0 <= i <= n <= d.len(),
        forall|k: int| 0 <= k < n ==> #[trigger] d[k] != 5,
    ensures
        codec::object_type(d, i) == codec::object_type(d, n),
    decreases n - i,
{
    if i < n {
        assert(d[i] != 5);
        lemma_no_tag_before(d, i + 1, n);
    }
}

/// The object type in a synthesized stream descriptor is the profile.
#[verifier::spinoff_prover]
#[verifier::rlimit(60)]
proof fn lemma_profile_found(a: AudioView)
    requires
        a.aac_profile < 31,
    ensures
        codec::esds_object_type(stream_info(a)) == Some(a.aac_profile),
{
    let d = descriptors(a);
    assert(stream_info(a).skip(4) =~= d);
    assert(d.len() == 27);
    assert(bytes::bytes32(128000) =~= seq![0u8, 1u8, 0xF4u8, 0u8]);
    assert forall|k: int| 0 <= k < 20 implies #[trigger] d[k] != 5 by {}
    lemma_no_tag_before(d, 0, 20);
    assert(d[20] == 5 && d[21] == 2);
    let first = transmux::audio_specific(a.aac_profile, a.sample_rate, a.channel_count)[0];
    assert(d[22] == first);
    assert(transmux::rate_index(a.sample_rate) <= 11);
    assert(first / 8 == a.aac_profile);
    assert(d.skip(21)[0] == 2);
    assert(codec::descriptor_size(d.skip(21), 0, 0) == (2int, 1int));
}

/// The payload of a synthesized stream descriptor.
spec fn stream_info(a: AudioView) -> Seq<u8> {
    seq![0u8] + bytes::bytes24(0) + descriptors(a)
}

#[verifier::spinoff_prover]
#[verifier::rlimit(60)]
proof fn lemma_esds_first(a: AudioView)
    ensures
        ({
            let p = audio_head(a) + cmaf::boxed(transmux::ESDS@, stream_info(a));
            forall|k: int|
                0 <= k < 28 ==> !(#[trigger] codec::code_at(p, k, codec::esds_code())
                    && codec::payload_at(p, k) is Some)
        }),
{
    let head = audio_head(a);
    let esds = cmaf::boxed(transmux::ESDS@, stream_info(a));
    let p = head + esds;
    assert(head.len() == 28);
    assert(stream_info(a).len() == 31);
    lemma_audio_head(a);
    assert(esds.subrange(0, 4) =~= bytes::bytes32(39));
    assert(p[28] == esds.subrange(0, 4)[0] && p[29] == esds.subrange(0, 4)[1] && p[30]
        == esds.subrange(0, 4)[2] && p[31] == esds.subrange(0, 4)[3]);
    assert forall|j: int| 0 <= j < 28 implies #[trigger] p[j] == head[j] by {}
    assert forall|k: int| 0 <= k < 28 implies !(#[trigger] codec::code_at(
        p,
        k,
        codec::esds_code(),
    )) by {
        if codec::code_at(p, k, codec::esds_code()) {
            lemma_code_bytes(p, k, codec::esds_code());
        }
    }
}

proof fn lemma_mp4a_parts(a: AudioView)
    ensures
        ({
            let p = audio_head(a) + cmaf::boxed(transmux::ESDS@, stream_info(a));
            &&& transmux::mp4a_entry(a) == cmaf::boxed(transmux::MP4A@, p)
            &&& p.len() == 67
            &&& audio_head(a).len() == 28
            &&& stream_info(a).len() == 31
        }),
{
    let p = audio_head(a) + cmaf::boxed(transmux::ESDS@, stream_info(a));
    synthesis::lemma_full_boxed(transmux::ESDS@, 0, 0, descriptors(a));
    assert(transmux::mp4a_entry(a) =~= cmaf::boxed(transmux::MP4A@, p));
}

/// The codec string of a synthesized audio sample entry.
#[verifier::spinoff_prover]
#[verifier::rlimit(60)]
proof fn lemma_audio_codec(a: AudioView)
    requires
        a.aac_profile < 31,
    ensures
        ({
            let b = transmux::mp4a_entry(a);
            &&& box_of(b, transmux::MP4A@)
            &&& codec::codec_string(transmux::MP4A@, round_trip::payload_of(b)) == "mp4a.40."@
                + text::dec(a.aac_profile as nat)
        }),
{
    let p = audio_head(a) + cmaf::boxed(transmux::ESDS@, stream_info(a));
    lemma_mp4a_parts(a);
    round_trip::boxed_reads_back(transmux::MP4A@, p);
    assert(transmux::ESDS@ =~= codec::esds_code());
    lemma_config_stands(audio_head(a), transmux::ESDS@, stream_info(a));
    lemma_esds_first(a);
    lemma_config_found(p, 0, 28, codec::esds_code());
    lemma_profile_found(a);
    lemma_entry_codes();
}

/// In front of the stream descriptor no two bytes in a row are other than zero, but for the
/// sample rate.
proof fn lemma_audio_head(a: AudioView)
    ensures
        forall|j: int|
            0 <= j < 28 && j != 7 && j != 17 && j != 19 && j != 24 && j != 25
                ==> #[trigger] audio_head(a)[j] == 0,
{
    let v = transmux::fixed16(a.sample_rate);
    assert(bytes::bytes32(v)[2] == 0 && bytes::bytes32(v)[3] == 0) by {
        assert(v % 0x10000 == 0);
    }
}

#[verifier::rlimit(60)]
proof fn lemma_entry_codes()
    ensures
        transmux::MP4A@ == codec::fourcc(0x6d, 0x70, 0x34, 0x61),
        transmux::AVC1@ == codec::fourcc(0x61, 0x76, 0x63, 0x31),
        !codec::encrypted_entry(transmux::MP4A@),
        !codec::encrypted_entry(transmux::AVC1@),
        transmux::MP4A@ != codec::fourcc(0x61, 0x76, 0x63, 0x31),
        transmux::MP4A@ != codec::fourcc(0x61, 0x76, 0x63, 0x33),
        transmux::MP4A@ != codec::fourcc(0x68, 0x65, 0x76, 0x31),
        transmux::MP4A@ != codec::fourcc(0x68, 0x76, 0x63, 0x31),
{
    assert(transmux::MP4A@ =~= codec::fourcc(0x6d, 0x70, 0x34, 0x61));
    assert(transmux::AVC1@ =~= codec::fourcc(0x61, 0x76, 0x63, 0x31));
    assert(transmux::MP4A@[0] == 0x6d);
    assert(transmux::AVC1@[1] == 0x76);
    assert(codec::fourcc(0x61, 0x76, 0x63, 0x33)[0] == 0x61);
    assert(codec::fourcc(0x68, 0x65, 0x76, 0x31)[0] == 0x68);
    assert(codec::fourcc(0x68, 0x76, 0x63, 0x31)[0] == 0x68);
    assert(codec::fourcc(0x65, 0x6e, 0x63, 0x76)[0] == 0x65);
    assert(codec::fourcc(0x65, 0x6e, 0x63, 0x61)[0] == 0x65);
    assert(codec::fourcc(0x65, 0x6e, 0x63, 0x74)[0] == 0x65);
    assert(codec::fourcc(0x65, 0x6e, 0x63, 0x73)[0] == 0x65);
}

/// What stands in front of the configuration record in a video sample entry.
spec fn video_head(v: VideoView) -> Seq<u8> {
    bytes::zeros(6) + bytes::bytes16(1) + bytes::zeros(16) + bytes::bytes16(v.width)
        + bytes::bytes16(v.height) + bytes::bytes32(0x48_0000) + bytes::bytes32(0x48_0000)
        + bytes::zeros(4) + bytes::bytes16(1) + bytes::zeros(32) + bytes::bytes16(0x18)
        + bytes::bytes16(0xFFFF)
}

/// A configuration record.
spec fn record(v: VideoView) -> Seq<u8> {
    seq![1u8, v.profile_idc, transmux::constraint_flags(v.sps), v.level_idc, 0xFFu8, 0xE1u8]
        + bytes::bytes16(v.sps.len() as u16) + v.sps + seq![1u8] + bytes::bytes16(
        v.pps.len() as u16,
    ) + v.pps
}

/// Whether the parameter sets are of the one length in all for which the size field of the
/// configuration record spells the type of the record.
pub open spec fn size_spells_type(v: VideoView) -> bool {
    v.sps.len() + v.pps.len() + 19 == 0x6176_6343
}

/// The codec string that a video configuration stands for. A size field that spells the type of
/// the record is taken for that type, and the record is read four bytes early.
pub open spec fn avc_string(v: VideoView) -> Seq<char> {
    if size_spells_type(v) {
        "avc1"@ + "."@ + text::hex2(0x76) + text::hex2(0x63) + text::hex2(0x43)
    } else {
        "avc1"@ + "."@ + text::hex2(v.profile_idc) + text::hex2(
            transmux::constraint_flags(v.sps),
        ) + text::hex2(v.level_idc)
    }
}

/// Whether a video sample entry has a size that its size field can say.
spec fn entry_fits(v: VideoView) -> bool {
    v.sps.len() + v.pps.len() + 105 <= u32::MAX
}

/// In front of the configuration record bytes are zero but for some.
proof fn lemma_video_head(v: VideoView)
    ensures
        video_head(v).len() == 78,
        forall|j: int|
            0 <= j < 78 && j != 7 && !(24 <= j < 28) && j != 29 && j != 33 && j != 41 && j != 75
                && j != 76 && j != 77 ==> #[trigger] video_head(v)[j] == 0,
        video_head(v)[29] == 0x48,
        video_head(v)[33] == 0x48,
        video_head(v)[75] == 0x18,
        video_head(v)[76] == 0xFF,
        video_head(v)[77] == 0xFF,
{
    assert(bytes::bytes32(0x48_0000) =~= seq![0u8, 0x48u8, 0u8, 0u8]);
}

/// The codec string of a synthesized video sample entry.
#[verifier::spinoff_prover]
#[verifier::rlimit(60)]
proof fn lemma_video_codec(v: VideoView)
    requires
        entry_fits(v),
    ensures
        ({
            let b = transmux::avc1_entry(v);
            &&& box_of(b, transmux::AVC1@)
            &&& codec::codec_string(transmux::AVC1@, round_trip::payload_of(b)) == avc_string(v)
        }),
{
    let head = video_head(v);
    let info = record(v);
    let avcc = cmaf::boxed(transmux::AVC_CONFIG@, info);
    let p = head + avcc;
    lemma_video_head(v);
    assert(info.len() == 11 + v.sps.len() + v.pps.len());
    assert(transmux::avc1_entry(v) =~= cmaf::boxed(transmux::AVC1@, p));
    round_trip::boxed_reads_back(transmux::AVC1@, p);
    assert(transmux::AVC_CONFIG@ =~= codec::avcc_code());
    lemma_config_stands(head, transmux::AVC_CONFIG@, info);
    lemma_avcc_first(v);
    lemma_entry_codes();
    if size_spells_type(v) {
        lemma_read_early(v);
        lemma_config_found(p, 0, 74, codec::avcc_code());
    } else {
        lemma_config_found(p, 0, 78, codec::avcc_code());
        assert(info[1] == v.profile_idc && info[2] == transmux::constraint_flags(v.sps) && info[3]
            == v.level_idc);
    }
}

/// A size field that spells the type of the record, read as that type.
#[verifier::spinoff_prover]
#[verifier::rlimit(60)]
proof fn lemma_read_early(v: VideoView)
    requires
        entry_fits(v),
        size_spells_type(v),
    ensures
        ({
            let p = video_head(v) + cmaf::boxed(transmux::AVC_CONFIG@, record(v));
            &&& codec::code_at(p, 74, codec::avcc_code())
            &&& codec::payload_at(p, 74) matches Some(c) && c.len() >= 4 && c[1] == 0x76 && c[2]
                == 0x63 && c[3] == 0x43
        }),
{
    let head = video_head(v);
    let avcc = cmaf::boxed(transmux::AVC_CONFIG@, record(v));
    let p = head + avcc;
    let size = (record(v).len() + 8) as u32;
    lemma_video_head(v);
    assert(record(v).len() == 11 + v.sps.len() + v.pps.len());
    assert(size == 0x6176_6343);
    assert(avcc.subrange(0, 8) =~= bytes::bytes32(size) + transmux::AVC_CONFIG@);
    assert forall|j: int| 0 <= j < 8 implies p[78 + j] == #[trigger] avcc.subrange(0, 8)[j] by {}
    assert(p.subrange(78, 82) =~= codec::avcc_code());
    assert(p[74] == head[74] && p[75] == head[75] && p[76] == head[76] && p[77] == head[77]);
    assert(bytes::be32(p, 74) == 0x18_FFFF);
    assert(p.len() >= 0x6176_6343);
    let c = p.subrange(82, 0x19_0049);
    assert(c[1] == p[83] && c[2] == p[84] && c[3] == p[85]);
}

#[verifier::spinoff_prover]
#[verifier::rlimit(60)]
proof fn lemma_avcc_first(v: VideoView)
    requires
        entry_fits(v),
    ensures
        ({
            let p = video_head(v) + cmaf::boxed(transmux::AVC_CONFIG@, record(v));
            forall|k: int|
                0 <= k < 78 && !(k == 74 && size_spells_type(v)) ==> !(#[trigger] codec::code_at(
                    p,
                    k,
                    codec::avcc_code(),
                ) && codec::payload_at(p, k) is Some)
        }),
{
    let head = video_head(v);
    let avcc = cmaf::boxed(transmux::AVC_CONFIG@, record(v));
    let p = head + avcc;
    let size = (record(v).len() + 8) as u32;
    lemma_video_head(v);
    assert(record(v).len() == 11 + v.sps.len() + v.pps.len());
    assert(avcc.subrange(0, 8) =~= bytes::bytes32(size) + transmux::AVC_CONFIG@);
    assert forall|j: int| 0 <= j < 8 implies p[78 + j] == #[trigger] avcc.subrange(0, 8)[j] by {}
    assert(p[82] == 0x61 && p[83] == 0x76 && p[84] == 0x63);
    assert forall|j: int| 0 <= j < 78 implies #[trigger] p[j] == head[j] by {}
    assert forall|k: int| 0 <= k < 78 && !(k == 74 && size_spells_type(v)) implies !(
    #[trigger] codec::code_at(p, k, codec::avcc_code()) && codec::payload_at(p, k) is Some) by {
        if codec::code_at(p, k, codec::avcc_code()) {
            lemma_code_bytes(p, k, codec::avcc_code());
            if k == 74 {
                assert(bytes::bytes32(size)[0] == 0x61 && bytes::bytes32(size)[1] == 0x76
                    && bytes::bytes32(size)[2] == 0x63 && bytes::bytes32(size)[3] == 0x43);
                assert(size == 0x6176_6343);
            }
            if k == 20 {
                assert(p[20] == 0 && p[21] == 0 && p[22] == 0 && p[23] == 0);
                assert(bytes::be32(p, 20) == 0);
            }
        }
    }
}

// Init segments.

/// The track that a synthesized init segment has for video.
pub open spec fn video_track(track_id: u32, v: VideoView) -> TrackView {
    TrackView {
        track_type: TrackType::Video,
        track_id,
        codec_string: avc_string(v),
        timescale: 90000,
        kid: None,
    }
}

/// The track that a synthesized init segment has for audio.
pub open spec fn audio_track(track_id: u32, a: AudioView) -> TrackView {
    TrackView {
        track_type: TrackType::Audio,
        track_id,
        codec_string: "mp4a.40."@ + text::dec(a.aac_profile as nat),
        timescale: a.sample_rate,
        kid: None,
    }
}

/// Whether `b` is a track box that describes `t`.
#[verifier::opaque]
spec fn describes(b: Seq<u8>, t: TrackView) -> bool {
    box_of(b, box_type::TRAK@) && codec::track_of(round_trip::payload_of(b)) == Ok::<
        Option<TrackView>,
        ErrorView,
    >(Some(t))
}

/// A handler box in a track is no longer than the track.
#[verifier::rlimit(60)]
proof fn lemma_hdlr_length(
    tkhd: Seq<u8>,
    mdhd: Seq<u8>,
    hdlr: Seq<u8>,
    header: Seq<u8>,
    entry: Seq<u8>,
)
    requires
        made_track(tkhd, mdhd, hdlr, header, entry).len() <= u32::MAX,
    ensures
        hdlr.len() <= u32::MAX,
{
    lemma_trak_length(
        tkhd,
        mdhd,
        hdlr,
        header,
        transmux::dinf_box(),
        transmux::stbl_box(entry),
    );
}

#[verifier::rlimit(60)]
proof fn lemma_video_track(track_id: u32, v: VideoView)
    requires
        transmux::video_trak(track_id, v).len() <= u32::MAX,
    ensures
        describes(transmux::video_trak(track_id, v), video_track(track_id, v)),
{
    reveal(describes);
    let tkhd = transmux::tkhd_box(track_id, v.width as u32, v.height as u32, false);
    let mdhd = transmux::mdhd_box(90000);
    let hdlr = transmux::hdlr_box(transmux::VIDE@, "VideoHandler"@);
    let header = transmux::vmhd_box();
    let entry = transmux::avc1_entry(v);
    lemma_tkhd_says(track_id, v.width as u32, v.height as u32, false);
    lemma_mdhd_says(90000);
    lemma_hdlr_length(tkhd, mdhd, hdlr, header, entry);
    lemma_hdlr_says(transmux::VIDE@, "VideoHandler"@);
    lemma_handlers();
    lemma_media_headers();
    lemma_video_codec(v);
    lemma_entry_codes();
    lemma_made_track(tkhd, mdhd, hdlr, header, entry);
}

#[verifier::rlimit(60)]
proof fn lemma_audio_track(track_id: u32, a: AudioView)
    requires
        a.aac_profile < 31,
        transmux::audio_trak(track_id, a).len() <= u32::MAX,
    ensures
        describes(transmux::audio_trak(track_id, a), audio_track(track_id, a)),
{
    reveal(describes);
    let tkhd = transmux::tkhd_box(track_id, 0, 0, true);
    let mdhd = transmux::mdhd_box(a.sample_rate);
    let hdlr = transmux::hdlr_box(transmux::SOUN@, "SoundHandler"@);
    let header = transmux::smhd_box();
    let entry = transmux::mp4a_entry(a);
    lemma_tkhd_says(track_id, 0, 0, true);
    lemma_mdhd_says(a.sample_rate);
    lemma_hdlr_length(tkhd, mdhd, hdlr, header, entry);
    lemma_hdlr_says(transmux::SOUN@, "SoundHandler"@);
    lemma_handlers();
    lemma_media_headers();
    lemma_audio_codec(a);
    lemma_entry_codes();
    lemma_made_track(tkhd, mdhd, hdlr, header, entry);
}

proof fn lemma_handlers()
    ensures
        media::handler_track_type(transmux::VIDE@) == TrackType::Video,
        media::handler_track_type(transmux::SOUN@) == TrackType::Audio,
{
    assert(transmux::VIDE@ =~= seq![0x76u8, 0x69, 0x64, 0x65]);
    assert(transmux::SOUN@ =~= seq![0x73u8, 0x6f, 0x75, 0x6e]);
    assert(transmux::SOUN@[0] != seq![0x76u8, 0x69, 0x64, 0x65][0]);
}

/// The tracks of a movie box from box `i` on, after those in `got`.
#[verifier::opaque]
spec fn tracks_after(s: Seq<u8>, i: int, got: Seq<TrackView>) -> Result<
    Seq<TrackView>,
    ErrorView,
> {
    codec::tracks_in(s, i, got)
}

/// What the boxes of a movie box add to the tracks.
proof fn lemma_tracks_step(s: Seq<u8>, parts: Seq<Seq<u8>>, i: int, got: Seq<TrackView>)
    requires
        round_trip::made_of(s, parts),
        s.len() <= u64::MAX,
        0 <= i <= parts.len(),
    ensures
        i == parts.len() ==> tracks_after(s, i, got) == Ok::<Seq<TrackView>, ErrorView>(got),
        i < parts.len() && round_trip::type_of(parts[i]) != box_type::TRAK@ ==> tracks_after(
            s,
            i,
            got,
        ) == tracks_after(s, i + 1, got),
        forall|t: TrackView|
            i < parts.len() && #[trigger] describes(parts[i], t) ==> tracks_after(s, i, got)
                == tracks_after(s, i + 1, got.push(t)),
{
    reveal(tracks_after);
    reveal(describes);
    round_trip::run_hands_out_every_box(s, parts);
    if i < parts.len() {
        assert(round_trip::stands_for(s, cmaf::run(s).headers[i], parts[i]));
    }
}

proof fn lemma_described(b: Seq<u8>, t: TrackView)
    requires
        describes(b, t),
    ensures
        round_trip::whole_box(b),
{
    reveal(describes);
}

/// A movie box with one track between two other boxes.
#[verifier::rlimit(60)]
proof fn lemma_one_track(m: Seq<u8>, x: Seq<u8>, e: Seq<u8>, t: TrackView)
    requires
        box_of(m, box_type::MVHD@),
        describes(x, t),
        box_of(e, box_type::MVEX@),
        (m + x + e).len() <= u64::MAX,
    ensures
        tracks_after(m + x + e, 0, Seq::empty()) == Ok::<Seq<TrackView>, ErrorView>(seq![t]),
{
    let s = m + x + e;
    let parts = seq![m, x, e];
    let none = Seq::<TrackView>::empty();
    synthesis::lemma_joined_three(m, x, e);
    lemma_described(x, t);
    assert(round_trip::made_of(s, parts));
    lemma_moov_codes();
    lemma_tracks_step(s, parts, 0, none);
    lemma_tracks_step(s, parts, 1, none);
    assert(describes(parts[1], t));
    assert(none.push(t) =~= seq![t]);
    lemma_tracks_step(s, parts, 2, seq![t]);
    lemma_tracks_step(s, parts, 3, seq![t]);
}

/// A movie box with two tracks between two other boxes.
#[verifier::rlimit(60)]
proof fn lemma_two_tracks(
    m: Seq<u8>,
    x: Seq<u8>,
    y: Seq<u8>,
    e: Seq<u8>,
    t: TrackView,
    u: TrackView,
)
    requires
        box_of(m, box_type::MVHD@),
        describes(x, t),
        describes(y, u),
        box_of(e, box_type::MVEX@),
        (m + x + y + e).len() <= u64::MAX,
    ensures
        tracks_after(m + x + y + e, 0, Seq::empty()) == Ok::<Seq<TrackView>, ErrorView>(
            seq![t, u],
        ),
{
    let s = m + x + y + e;
    let parts = seq![m, x, y, e];
    lemma_described(x, t);
    lemma_described(y, u);
    lemma_joined_four(m, x, y, e);
    assert(round_trip::made_of(s, parts));
    lemma_moov_codes();
    lemma_two_tracks_in(s, parts, t, u);
}

proof fn lemma_joined_four(a: Seq<u8>, b: Seq<u8>, c: Seq<u8>, d: Seq<u8>)
    ensures
        cmaf::joined(seq![a, b, c, d], 4) == a + b + c + d,
{
    let parts = seq![a, b, c, d];
    assert(cmaf::joined(parts, 0) == Seq::<u8>::empty());
    assert(cmaf::joined(parts, 1) =~= a);
    assert(cmaf::joined(parts, 2) == a + b);
    assert(cmaf::joined(parts, 3) == a + b + c);
}

#[verifier::spinoff_prover]
#[verifier::rlimit(60)]
proof fn lemma_two_tracks_in(s: Seq<u8>, parts: Seq<Seq<u8>>, t: TrackView, u: TrackView)
    requires
        round_trip::made_of(s, parts),
        s.len() <= u64::MAX,
        parts.len() == 4,
        round_trip::type_of(parts[0]) != box_type::TRAK@,
        describes(parts[1], t),
        describes(parts[2], u),
        round_trip::type_of(parts[3]) != box_type::TRAK@,
    ensures
        tracks_after(s, 0, Seq::empty()) == Ok::<Seq<TrackView>, ErrorView>(seq![t, u]),
{
    let none = Seq::<TrackView>::empty();
    lemma_tracks_step(s, parts, 0, none);
    lemma_tracks_step(s, parts, 1, none);
    assert(none.push(t) =~= seq![t]);
    lemma_tracks_step(s, parts, 2, seq![t]);
    assert(seq![t].push(u) =~= seq![t, u]);
    lemma_tracks_step(s, parts, 3, seq![t, u]);
    lemma_tracks_step(s, parts, 4, seq![t, u]);
}

proof fn lemma_moov_codes()
    ensures
        box_type::MVHD@ != box_type::TRAK@,
        box_type::MVEX@ != box_type::TRAK@,
        box_type::FTYP@ != box_type::MOOV@,
{
    assert(box_type::MVHD@[0] != box_type::TRAK@[0]);
    assert(box_type::MVEX@[0] != box_type::TRAK@[0]);
    assert(box_type::FTYP@[0] != box_type::MOOV@[0]);
}

proof fn lemma_mvhd_is_a_box(timescale: u32)
    ensures
        box_of(transmux::mvhd_box(timescale), box_type::MVHD@),
{
    let body = bytes::zeros(8) + bytes::bytes32(timescale) + bytes::zeros(4) + bytes::bytes32(
        0x10000,
    ) + bytes::bytes16(0x100) + bytes::zeros(10) + transmux::identity_matrix() + bytes::zeros(24)
        + bytes::bytes32(0xFFFF_FFFF);
    assert(body.len() == 96);
    lemma_full_box(box_type::MVHD@, 0, 0, body);
}

proof fn lemma_mvex_is_a_box(body: Seq<u8>)
    requires
        body.len() <= 1000,
    ensures
        box_of(cmaf::boxed(box_type::MVEX@, body), box_type::MVEX@),
{
    round_trip::boxed_reads_back(box_type::MVEX@, body);
}

proof fn lemma_trex_length(track_id: u32)
    ensures
        transmux::trex_box(track_id).len() == 32,
{
}

/// The tracks of a synthesized init segment: video first, numbered from one.
pub open spec fn synthesized_tracks(
    video: Option<VideoView>,
    audio: Option<AudioView>,
) -> Seq<TrackView> {
    match (video, audio) {
        (Some(v), Some(a)) => seq![video_track(1, v), audio_track(2, a)],
        (Some(v), None) => seq![video_track(1, v)],
        (None, Some(a)) => seq![audio_track(1, a)],
        (None, None) => Seq::empty(),
    }
}

/// The boxes around the tracks in a movie box.
proof fn lemma_moov_frame()
    ensures
        box_of(transmux::mvhd_box(90000), box_type::MVHD@),
        box_of(cmaf::boxed(box_type::MVEX@, transmux::trex_box(1)), box_type::MVEX@),
        box_of(
            cmaf::boxed(box_type::MVEX@, transmux::trex_box(1) + transmux::trex_box(2)),
            box_type::MVEX@,
        ),
{
    lemma_mvhd_is_a_box(90000);
    lemma_trex_length(1);
    lemma_trex_length(2);
    lemma_mvex_is_a_box(transmux::trex_box(1));
    lemma_mvex_is_a_box(transmux::trex_box(1) + transmux::trex_box(2));
}

#[verifier::rlimit(60)]
proof fn lemma_moov_of_both(v: VideoView, a: AudioView)
    requires
        a.aac_profile < 31,
        transmux::moov_payload(Some(v), Some(a)).len() <= u32::MAX,
    ensures
        tracks_after(transmux::moov_payload(Some(v), Some(a)), 0, Seq::empty()) == Ok::<
            Seq<TrackView>,
            ErrorView,
        >(seq![video_track(1, v), audio_track(2, a)]),
{
    reveal(transmux::moov_payload);
    let m = transmux::mvhd_box(90000);
    let x = transmux::video_trak(1, v);
    let y = transmux::audio_trak(2, a);
    let e = cmaf::boxed(box_type::MVEX@, transmux::trex_box(1) + transmux::trex_box(2));
    assert(transmux::moov_payload(Some(v), Some(a)) == m + x + y + e);
    lemma_moov_frame();
    lemma_video_track(1, v);
    lemma_audio_track(2, a);
    lemma_two_tracks(m, x, y, e, video_track(1, v), audio_track(2, a));
}

#[verifier::rlimit(60)]
proof fn lemma_moov_of_video(v: VideoView)
    requires
        transmux::moov_payload(Some(v), None).len() <= u32::MAX,
    ensures
        tracks_after(transmux::moov_payload(Some(v), None), 0, Seq::empty()) == Ok::<
            Seq<TrackView>,
            ErrorView,
        >(seq![video_track(1, v)]),
{
    reveal(transmux::moov_payload);
    let m = transmux::mvhd_box(90000);
    let x = transmux::video_trak(1, v);
    let e = cmaf::boxed(box_type::MVEX@, transmux::trex_box(1));
    assert(transmux::moov_payload(Some(v), None) == m + x + e);
    lemma_moov_frame();
    lemma_video_track(1, v);
    lemma_one_track(m, x, e, video_track(1, v));
}

#[verifier::rlimit(60)]
proof fn lemma_moov_of_audio(a: AudioView)
    requires
        a.aac_profile < 31,
        transmux::moov_payload(None, Some(a)).len() <= u32::MAX,
    ensures
        tracks_after(transmux::moov_payload(None, Some(a)), 0, Seq::empty()) == Ok::<
            Seq<TrackView>,
            ErrorView,
        >(seq![audio_track(1, a)]),
{
    reveal(transmux::moov_payload);
    let m = transmux::mvhd_box(90000);
    let x = transmux::audio_trak(1, a);
    let e = cmaf::boxed(box_type::MVEX@, transmux::trex_box(1));
    assert(transmux::moov_payload(None, Some(a)) == m + x + e);
    lemma_moov_frame();
    lemma_audio_track(1, a);
    lemma_one_track(m, x, e, audio_track(1, a));
}

#[verifier::spinoff_prover]
#[verifier::rlimit(60)]
proof fn lemma_moov_says(video: Option<VideoView>, audio: Option<AudioView>)
    requires
        video is Some || audio is Some,
        audio matches Some(a) ==> a.aac_profile < 31,
        transmux::moov_payload(video, audio).len() <= u32::MAX,
    ensures
        tracks_after(transmux::moov_payload(video, audio), 0, Seq::empty()) == Ok::<
            Seq<TrackView>,
            ErrorView,
        >(synthesized_tracks(video, audio)),
        transmux::ftyp_payload().len() == 24,
{
    match (video, audio) {
        (Some(v), Some(a)) => {
            lemma_moov_of_both(v, a);
        },
        (Some(v), None) => {
            lemma_moov_of_video(v);
        },
        (None, Some(a)) => {
            lemma_moov_of_audio(a);
        },
        (None, None) => {},
    }
}

/// The tracks of a segment with a file type box and a movie box.
#[verifier::spinoff_prover]
#[verifier::rlimit(60)]
proof fn lemma_tracks_of(brand: Seq<u8>, payload: Seq<u8>, tracks: Seq<TrackView>)
    requires
        brand.len() <= 1000,
        payload.len() + 8 <= u32::MAX,
        tracks_after(payload, 0, Seq::empty()) == Ok::<Seq<TrackView>, ErrorView>(tracks),
    ensures
        codec::tracks_of(
            cmaf::boxed(box_type::FTYP@, brand) + cmaf::boxed(box_type::MOOV@, payload),
        ) == Ok::<Seq<TrackView>, ErrorView>(tracks),
{
    reveal(tracks_after);
    reveal(codec::tracks_of);
    let ftyp = cmaf::boxed(box_type::FTYP@, brand);
    let moov = cmaf::boxed(box_type::MOOV@, payload);
    assert(moov.len() == payload.len() + 8);
    round_trip::boxed_reads_back(box_type::FTYP@, brand);
    round_trip::boxed_reads_back(box_type::MOOV@, payload);
    lemma_moov_codes();
    lemma_two_children(ftyp, moov);
}

/// The tracks of a synthesized init segment are read back: type, number, timescale and codec
/// string of each, and no key. A profile whose five bits are all ones announces a longer one
/// and is left out, as is a movie box that is larger than its size field can say.
#[verifier::rlimit(60)]
pub proof fn synthesized_tracks_are_read_back(
    video: Option<VideoView>,
    audio: Option<AudioView>,
    out: Seq<u8>,
)
    requires
        transmux::synthesized_init(video, audio) == Ok::<Seq<u8>, ErrorView>(out),
        audio matches Some(a) ==> a.aac_profile < 31,
        transmux::moov_payload(video, audio).len() + 8 <= u32::MAX,
    ensures
        codec::tracks_of(out) == Ok::<Seq<TrackView>, ErrorView>(
            synthesized_tracks(video, audio),
        ),
{
    let payload = transmux::moov_payload(video, audio);
    let brand = transmux::ftyp_payload();
    lemma_moov_says(video, audio);
    lemma_tracks_of(brand, payload, synthesized_tracks(video, audio));
}

} // verus!
