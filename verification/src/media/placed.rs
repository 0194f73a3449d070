//! What a transmuxed segment says of its packets: which track they belong to, when they are
//! decoded, how long they last, and which of them can be decoded alone.

use crate::bytes;
use crate::error::ErrorView;
use crate::media::box_type;
use crate::media::cmaf;
use crate::media::cmaf::{TrunEntry, TrunView};
use crate::media::round_trip;
use crate::media::synthesis;
use crate::media::transmux;
use crate::media::transmux::AudioView;
use crate::media::ts::PesView;
use vstd::prelude::*;

verus! {

// Fragments.

/// Whether a moof box and an mdat box are a fragment of one track: with a sequence number, a
/// track number, a decode time, a track run and sample data.
#[verifier::opaque]
pub open spec fn is_fragment(
    moof: Seq<u8>,
    mdat: Seq<u8>,
    sequence_number: u32,
    track_id: u32,
    time: u64,
    run: TrunView,
    data: Seq<u8>,
) -> bool {
    let parts = round_trip::boxes_of(round_trip::payload_of(moof));
    let inner = round_trip::boxes_of(round_trip::payload_of(parts[1]));
    &&& round_trip::type_of(moof) == box_type::MOOF@
    &&& round_trip::whole_boxes(round_trip::payload_of(moof))
    &&& parts.len() == 2
    &&& round_trip::type_of(parts[0]) == box_type::MFHD@
    &&& bytes::be32(round_trip::payload_of(parts[0]), 4) == sequence_number
    &&& round_trip::type_of(parts[1]) == box_type::TRAF@
    &&& round_trip::whole_boxes(round_trip::payload_of(parts[1]))
    &&& inner.len() == 3
    &&& round_trip::type_of(inner[0]) == box_type::TFHD@
    &&& bytes::be32(round_trip::payload_of(inner[0]), 4) == track_id
    &&& round_trip::type_of(inner[1]) == box_type::TFDT@
    &&& round_trip::payload_of(inner[1]).len() == 12
    &&& round_trip::payload_of(inner[1])[0] == 1
    &&& bytes::be64(round_trip::payload_of(inner[1]), 4) == time
    &&& round_trip::type_of(inner[2]) == box_type::TRUN@
    &&& cmaf::trun_of(round_trip::payload_of(inner[2])) == Ok::<TrunView, ErrorView>(run)
    &&& round_trip::type_of(mdat) == box_type::MDAT@
    &&& round_trip::payload_of(mdat) == data
}

#[verifier::rlimit(60)]
proof fn lemma_header_fields(sequence_number: u32, track_id: u32, time: u64)
    ensures
        ({
            let a = transmux::mfhd_box(sequence_number);
            let b = transmux::tfhd_box(track_id);
            let c = transmux::tfdt_box(time);
            &&& round_trip::whole_box(a)
            &&& round_trip::type_of(a) == box_type::MFHD@
            &&& bytes::be32(round_trip::payload_of(a), 4) == sequence_number
            &&& round_trip::whole_box(b)
            &&& round_trip::type_of(b) == box_type::TFHD@
            &&& bytes::be32(round_trip::payload_of(b), 4) == track_id
            &&& round_trip::whole_box(c)
            &&& round_trip::type_of(c) == box_type::TFDT@
            &&& round_trip::payload_of(c).len() == 12
            &&& round_trip::payload_of(c)[0] == 1
            &&& bytes::be64(round_trip::payload_of(c), 4) == time
            &&& a.len() == 16 && b.len() == 16 && c.len() == 20
        }),
{
    let a = bytes::bytes32(sequence_number);
    let b = bytes::bytes32(track_id);
    let c = bytes::bytes64(time);
    synthesis::lemma_full_boxed(box_type::MFHD@, 0, 0, a);
    synthesis::lemma_full_boxed(box_type::TFHD@, 0, 0x2_0000, b);
    synthesis::lemma_full_boxed(box_type::TFDT@, 1, 0, c);
    let p = seq![0u8] + bytes::bytes24(0) + a;
    let q = seq![0u8] + bytes::bytes24(0x2_0000) + b;
    let r = seq![1u8] + bytes::bytes24(0) + c;
    round_trip::boxed_reads_back(box_type::MFHD@, p);
    round_trip::boxed_reads_back(box_type::TFHD@, q);
    round_trip::boxed_reads_back(box_type::TFDT@, r);
    assert(p.subrange(4, 8) =~= a);
    assert(q.subrange(4, 8) =~= b);
    assert(r.subrange(4, 12) =~= c);
    bytes::lemma_be32_of_bytes32(p, 4, sequence_number);
    bytes::lemma_be32_of_bytes32(q, 4, track_id);
    bytes::lemma_be64_of_bytes64(r, 4, time);
}

#[verifier::spinoff_prover]
#[verifier::rlimit(60)]
proof fn lemma_fragment(
    sequence_number: u32,
    track_id: u32,
    time: u64,
    trun: Seq<u8>,
    run: TrunView,
    data: Seq<u8>,
)
    requires
        synthesis::run_box(trun, run),
        trun.len() + 68 <= u32::MAX,
        data.len() + 8 <= u32::MAX,
    ensures
        ({
            let moof = transmux::moof_box(sequence_number, track_id, time, trun);
            let mdat = cmaf::boxed(box_type::MDAT@, data);
            &&& round_trip::whole_box(moof)
            &&& round_trip::whole_box(mdat)
            &&& is_fragment(moof, mdat, sequence_number, track_id, time, run, data)
        }),
{
    let a = transmux::mfhd_box(sequence_number);
    let b = transmux::tfhd_box(track_id);
    let c = transmux::tfdt_box(time);
    lemma_header_fields(sequence_number, track_id, time);
    let inner = b + c + trun;
    let traf = cmaf::boxed(box_type::TRAF@, inner);
    assert(traf.len() == inner.len() + 8);
    round_trip::boxed_reads_back(box_type::TRAF@, inner);
    synthesis::lemma_joined_three(b, c, trun);
    assert(round_trip::made_of(inner, seq![b, c, trun]));
    round_trip::lemma_made_one_way(inner, seq![b, c, trun]);
    let payload = a + traf;
    synthesis::lemma_joined_two(a, traf);
    assert(round_trip::made_of(payload, seq![a, traf]));
    round_trip::lemma_made_one_way(payload, seq![a, traf]);
    round_trip::boxed_reads_back(box_type::MOOF@, payload);
    round_trip::boxed_reads_back(box_type::MDAT@, data);
    reveal(is_fragment);
}

proof fn lemma_fragment_size(
    sequence_number: u32,
    track_id: u32,
    time: u64,
    trun: Seq<u8>,
    data: Seq<u8>,
)
    ensures
        (transmux::moof_box(sequence_number, track_id, time, trun) + cmaf::boxed(
            box_type::MDAT@,
            data,
        )).len() == trun.len() + data.len() + 76,
{
    lemma_header_fields(sequence_number, track_id, time);
}

// Video.

/// Whether a packet is decoded at a time: its decode time, or, where it has none, its
/// presentation time.
pub open spec fn decoded_at(p: PesView, t: u64) -> bool {
    p.dts == Some(t) || (p.dts is None && p.pts == Some(t))
}

/// Whether a packet has a slice of a picture that needs no other.
pub open spec fn has_idr(p: PesView) -> bool {
    exists|k: int|
        0 <= k < transmux::nals_of(p.data).len() && (#[trigger] transmux::nals_of(p.data)[k]).0
            == 5
}

/// Whether entry `i` of a track run is that of packet `i`: it lasts until the next packet is
/// decoded, 3003 ticks behind the last one, it is as long as the sample, and it says whether the
/// sample can be decoded alone.
pub open spec fn video_entry(packets: Seq<PesView>, e: TrunEntry, i: int) -> bool {
    &&& forall|t: u64, u: u64|
        i + 1 < packets.len() && #[trigger] decoded_at(packets[i], t) && #[trigger] decoded_at(
            packets[i + 1],
            u,
        ) && t <= u <= t + u32::MAX ==> e.sample_duration == Some((u - t) as u32)
    &&& i + 1 == packets.len() ==> e.sample_duration == Some(3003u32)
    &&& e.sample_size == Some(transmux::avcc_of(packets[i].data).len() as u32)
    &&& e.sample_flags == Some(
        if has_idr(packets[i]) {
            0x0200_0000u32
        } else {
            0x0001_0000u32
        },
    )
}

/// Whether a track run has an entry for every video packet, and no others.
pub open spec fn video_run(packets: Seq<PesView>, run: TrunView) -> bool {
    &&& run.entries.len() == packets.len()
    &&& forall|i: int|
        0 <= i < packets.len() ==> #[trigger] video_entry(packets, run.entries[i], i)
}

/// Whether a moof box and an mdat box are the fragment of video packets: on track 1, starting
/// when the first packet is decoded.
pub open spec fn video_placed(
    moof: Seq<u8>,
    mdat: Seq<u8>,
    packets: Seq<PesView>,
    sequence_number: u32,
) -> bool {
    exists|time: u64, run: TrunView, data: Seq<u8>| #[trigger]
        is_fragment(moof, mdat, sequence_number, 1, time, run, data) && video_run(packets, run) && (
        decoded_at(packets[0], time) || (time == 0 && packets[0].dts is None && packets[0].pts
            is None)) && data == cmaf::joined(synthesis::video_samples(packets), packets.len())
}

proof fn lemma_idr(nals: Seq<(u8, Seq<u8>)>, i: int)
    requires
        0 <= i <= nals.len(),
    ensures
        transmux::idr_in(nals, i) == (exists|k: int|
            i <= k < nals.len() && (#[trigger] nals[k]).0 == 5),
    decreases nals.len() - i,
{
    if i < nals.len() {
        lemma_idr(nals, i + 1);
        if nals[i].0 != 5 && exists|k: int| i <= k < nals.len() && (#[trigger] nals[k]).0 == 5 {
            let k = choose|k: int| i <= k < nals.len() && (#[trigger] nals[k]).0 == 5;
            assert(nals[k].0 == 5 && k > i);
        }
    }
}

#[verifier::spinoff_prover]
#[verifier::rlimit(60)]
proof fn lemma_video_placed(packets: Seq<PesView>, sequence_number: u32)
    requires
        0 < packets.len() <= u32::MAX,
        synthesis::video_fragment(packets, sequence_number).len() <= u32::MAX,
    ensures
        ({
            let moof = transmux::video_moof(packets, sequence_number, 1);
            let mdat = cmaf::boxed(
                box_type::MDAT@,
                transmux::video_data(packets, packets.len()),
            );
            &&& round_trip::whole_box(moof)
            &&& round_trip::whole_box(mdat)
            &&& video_placed(moof, mdat, packets, sequence_number)
        }),
{
    let time = transmux::base_time(packets);
    let trun = video_trun_of(packets);
    let data = transmux::video_data(packets, packets.len());
    let moof = transmux::moof_box(sequence_number, 1, time, trun);
    let mdat = cmaf::boxed(box_type::MDAT@, data);
    lemma_video_moof(packets, sequence_number);
    lemma_video_length(packets, sequence_number);
    let run = lemma_video_trun(packets);
    lemma_fragment(sequence_number, 1, time, trun, run, data);
    lemma_video_shown(moof, mdat, packets, sequence_number, time, run, data);
}

proof fn lemma_video_length(packets: Seq<PesView>, sequence_number: u32)
    ensures
        synthesis::video_fragment(packets, sequence_number).len() == video_trun_of(packets).len()
            + transmux::video_data(packets, packets.len()).len() + 76,
{
    lemma_video_moof(packets, sequence_number);
    lemma_fragment_size(
        sequence_number,
        1,
        transmux::base_time(packets),
        video_trun_of(packets),
        transmux::video_data(packets, packets.len()),
    );
}

proof fn lemma_video_shown(
    moof: Seq<u8>,
    mdat: Seq<u8>,
    packets: Seq<PesView>,
    sequence_number: u32,
    time: u64,
    run: TrunView,
    data: Seq<u8>,
)
    requires
        packets.len() > 0,
        is_fragment(moof, mdat, sequence_number, 1, time, run, data),
        video_run(packets, run),
        time == transmux::base_time(packets),
        data == transmux::video_data(packets, packets.len()),
    ensures
        video_placed(moof, mdat, packets, sequence_number),
{
    synthesis::lemma_video_data(packets, packets.len());
}

/// The track run of video packets.
#[verifier::opaque]
spec fn video_trun_of(packets: Seq<PesView>) -> Seq<u8> {
    transmux::video_trun(
        Seq::new(packets.len(), |i: int| transmux::video_duration(packets, i)),
        Seq::new(packets.len(), |i: int| transmux::avcc_of(packets[i].data).len() as u32),
        Seq::new(packets.len(), |i: int| transmux::video_flags(packets[i])),
    )
}

proof fn lemma_video_moof(packets: Seq<PesView>, sequence_number: u32)
    ensures
        transmux::video_moof(packets, sequence_number, 1) == transmux::moof_box(
            sequence_number,
            1,
            transmux::base_time(packets),
            video_trun_of(packets),
        ),
{
    reveal(video_trun_of);
}

#[verifier::spinoff_prover]
#[verifier::rlimit(60)]
proof fn lemma_video_trun(packets: Seq<PesView>) -> (run: TrunView)
    requires
        packets.len() <= u32::MAX,
        video_trun_of(packets).len() <= u32::MAX,
    ensures
        synthesis::run_box(video_trun_of(packets), run),
        video_run(packets, run),
{
    reveal(video_trun_of);
    let durations = Seq::new(packets.len(), |i: int| transmux::video_duration(packets, i));
    let sizes = Seq::new(packets.len(), |i: int| transmux::avcc_of(packets[i].data).len() as u32);
    let flags = Seq::new(packets.len(), |i: int| transmux::video_flags(packets[i]));
    let run = synthesis::run_info(synthesis::video_entries(durations, sizes, flags), true);
    synthesis::video_trun_round_trip(durations, sizes, flags);
    lemma_video_run(packets, run);
    run
}

#[verifier::spinoff_prover]
#[verifier::rlimit(60)]
proof fn lemma_video_run(packets: Seq<PesView>, run: TrunView)
    requires
        run.entries == synthesis::video_entries(
            Seq::new(packets.len(), |i: int| transmux::video_duration(packets, i)),
            Seq::new(packets.len(), |i: int| transmux::avcc_of(packets[i].data).len() as u32),
            Seq::new(packets.len(), |i: int| transmux::video_flags(packets[i])),
        ),
    ensures
        video_run(packets, run),
{
    assert forall|i: int| 0 <= i < packets.len() implies #[trigger] video_entry(
        packets,
        run.entries[i],
        i,
    ) by {
        lemma_idr(transmux::nals_of(packets[i].data), 0);
    }
}

// Audio.

/// Whether a moof box and an mdat box are the fragment of audio packets: on the given track,
/// starting when the first packet is presented, counted in samples, with 1024 samples in each
/// packet.
pub open spec fn audio_placed(
    moof: Seq<u8>,
    mdat: Seq<u8>,
    packets: Seq<PesView>,
    sequence_number: u32,
    track_id: u32,
    rate: u32,
) -> bool {
    exists|time: u64, run: TrunView, data: Seq<u8>| #[trigger]
        is_fragment(moof, mdat, sequence_number, track_id, time, run, data) && (packets[0].pts
            matches Some(t) ==> rate > 0 && t * rate / 90000 <= u64::MAX ==> time == t * rate / 90000)
            && (packets[0].pts is None ==> time == 0) && run.entries.len() == packets.len() && (
        forall|i: int|
            0 <= i < packets.len() ==> (#[trigger] run.entries[i]).sample_duration == Some(1024u32)
                && run.entries[i].sample_size == Some(
                transmux::adts_from(packets[i].data, 0, Seq::empty()).len() as u32,
            )) && data == cmaf::joined(synthesis::audio_samples(packets), packets.len())
}

#[verifier::spinoff_prover]
#[verifier::rlimit(60)]
proof fn lemma_audio_placed(packets: Seq<PesView>, sequence_number: u32, track_id: u32, rate: u32)
    requires
        0 < packets.len() <= u32::MAX,
        synthesis::audio_fragment(packets, sequence_number, track_id, rate).len() <= u32::MAX,
    ensures
        ({
            let moof = transmux::audio_moof(packets, sequence_number, track_id, rate);
            let mdat = cmaf::boxed(
                box_type::MDAT@,
                transmux::audio_data(packets, packets.len()),
            );
            &&& round_trip::whole_box(moof)
            &&& round_trip::whole_box(mdat)
            &&& audio_placed(moof, mdat, packets, sequence_number, track_id, rate)
        }),
{
    let time = transmux::audio_time(packets, rate);
    let trun = audio_trun_of(packets);
    let data = transmux::audio_data(packets, packets.len());
    let moof = transmux::moof_box(sequence_number, track_id, time, trun);
    let mdat = cmaf::boxed(box_type::MDAT@, data);
    lemma_audio_moof(packets, sequence_number, track_id, rate);
    lemma_audio_length(packets, sequence_number, track_id, rate);
    let run = lemma_audio_trun(packets);
    lemma_fragment(sequence_number, track_id, time, trun, run, data);
    lemma_audio_shown(moof, mdat, packets, sequence_number, track_id, rate, run);
}

proof fn lemma_audio_length(packets: Seq<PesView>, sequence_number: u32, track_id: u32, rate: u32)
    ensures
        synthesis::audio_fragment(packets, sequence_number, track_id, rate).len() == audio_trun_of(
            packets,
        ).len() + transmux::audio_data(packets, packets.len()).len() + 76,
{
    lemma_audio_moof(packets, sequence_number, track_id, rate);
    lemma_fragment_size(
        sequence_number,
        track_id,
        transmux::audio_time(packets, rate),
        audio_trun_of(packets),
        transmux::audio_data(packets, packets.len()),
    );
}

proof fn lemma_audio_shown(
    moof: Seq<u8>,
    mdat: Seq<u8>,
    packets: Seq<PesView>,
    sequence_number: u32,
    track_id: u32,
    rate: u32,
    run: TrunView,
)
    requires
        packets.len() > 0,
        is_fragment(
            moof,
            mdat,
            sequence_number,
            track_id,
            transmux::audio_time(packets, rate),
            run,
            transmux::audio_data(packets, packets.len()),
        ),
        run.entries.len() == packets.len(),
        forall|i: int|
            0 <= i < packets.len() ==> (#[trigger] run.entries[i]).sample_duration == Some(1024u32)
                && run.entries[i].sample_size == Some(
                transmux::adts_from(packets[i].data, 0, Seq::empty()).len() as u32,
            ),
    ensures
        audio_placed(moof, mdat, packets, sequence_number, track_id, rate),
{
    synthesis::lemma_audio_data(packets, packets.len());
    lemma_audio_time(packets, rate);
}

proof fn lemma_audio_time(packets: Seq<PesView>, rate: u32)
    requires
        packets.len() > 0,
    ensures
        packets[0].pts matches Some(t) ==> rate > 0 && t * rate / 90000 <= u64::MAX
            ==> transmux::audio_time(packets, rate) == t * rate / 90000,
        packets[0].pts is None ==> transmux::audio_time(packets, rate) == 0,
{
    if let Some(t) = packets[0].pts {
        assert(t * rate >= 0) by (nonlinear_arith);
    } else {
        assert(0 * rate == 0);
    }
}

/// The track run of audio packets.
#[verifier::opaque]
spec fn audio_trun_of(packets: Seq<PesView>) -> Seq<u8> {
    transmux::audio_trun(
        Seq::new(packets.len(), |i: int| 1024u32),
        Seq::new(
            packets.len(),
            |i: int| transmux::adts_from(packets[i].data, 0, Seq::empty()).len() as u32,
        ),
    )
}

proof fn lemma_audio_moof(packets: Seq<PesView>, sequence_number: u32, track_id: u32, rate: u32)
    ensures
        transmux::audio_moof(packets, sequence_number, track_id, rate) == transmux::moof_box(
            sequence_number,
            track_id,
            transmux::audio_time(packets, rate),
            audio_trun_of(packets),
        ),
{
    reveal(audio_trun_of);
}

#[verifier::spinoff_prover]
#[verifier::rlimit(60)]
proof fn lemma_audio_trun(packets: Seq<PesView>) -> (run: TrunView)
    requires
        packets.len() <= u32::MAX,
        audio_trun_of(packets).len() <= u32::MAX,
    ensures
        synthesis::run_box(audio_trun_of(packets), run),
        run.entries.len() == packets.len(),
        forall|i: int|
            0 <= i < packets.len() ==> (#[trigger] run.entries[i]).sample_duration == Some(1024u32)
                && run.entries[i].sample_size == Some(
                transmux::adts_from(packets[i].data, 0, Seq::empty()).len() as u32,
            ),
{
    reveal(audio_trun_of);
    let durations = Seq::new(packets.len(), |i: int| 1024u32);
    let sizes = Seq::new(
        packets.len(),
        |i: int| transmux::adts_from(packets[i].data, 0, Seq::empty()).len() as u32,
    );
    synthesis::audio_trun_round_trip(durations, sizes);
    synthesis::run_info(synthesis::audio_entries(durations, sizes), false)
}

// Segments.

proof fn lemma_two(a: Seq<u8>, b: Seq<u8>)
    requires
        round_trip::whole_box(a),
        round_trip::whole_box(b),
        a.len() + b.len() <= u64::MAX,
    ensures
        round_trip::whole_boxes(a + b),
        round_trip::boxes_of(a + b) == seq![a, b],
{
    synthesis::lemma_joined_two(a, b);
    assert(round_trip::made_of(a + b, seq![a, b]));
    round_trip::lemma_made_one_way(a + b, seq![a, b]);
}

proof fn lemma_four(a: Seq<u8>, b: Seq<u8>, c: Seq<u8>, d: Seq<u8>)
    requires
        round_trip::whole_box(a),
        round_trip::whole_box(b),
        round_trip::whole_box(c),
        round_trip::whole_box(d),
        a.len() + b.len() + c.len() + d.len() <= u64::MAX,
    ensures
        round_trip::whole_boxes(a + b + (c + d)),
        round_trip::boxes_of(a + b + (c + d)) == seq![a, b, c, d],
{
    let parts = seq![a, b, c, d];
    let s = a + b + (c + d);
    assert(cmaf::joined(parts, 0) == Seq::<u8>::empty());
    assert(cmaf::joined(parts, 1) =~= a);
    assert(cmaf::joined(parts, 2) == a + b);
    assert(cmaf::joined(parts, 3) == a + b + c);
    assert(cmaf::joined(parts, 4) =~= s);
    assert(round_trip::made_of(s, parts));
    round_trip::lemma_made_one_way(s, parts);
}

/// A segment that was transmuxed without audio is one fragment, placed where its first video
/// packet is decoded, with the time, the size and the kind of every packet in it.
pub proof fn transmuxed_video_is_placed(
    video: Seq<PesView>,
    audio: Seq<PesView>,
    config: Option<AudioView>,
    sequence_number: u32,
    out: Seq<u8>,
)
    requires
        0 < video.len() <= u32::MAX,
        config is None || audio.len() == 0,
        transmux::transmuxed(video, audio, true, config, sequence_number) == Ok::<
            Seq<u8>,
            ErrorView,
        >(out),
        out.len() <= u32::MAX,
    ensures
        round_trip::whole_boxes(out),
        round_trip::boxes_of(out).len() == 2,
        video_placed(
            round_trip::boxes_of(out)[0],
            round_trip::boxes_of(out)[1],
            video,
            sequence_number,
        ),
{
    assert(out =~= synthesis::video_fragment(video, sequence_number));
    lemma_video_placed(video, sequence_number);
    lemma_two(
        transmux::video_moof(video, sequence_number, 1),
        cmaf::boxed(box_type::MDAT@, transmux::video_data(video, video.len())),
    );
}

/// A segment that was transmuxed without video packets is one fragment, placed where its first
/// audio packet is presented. The track is the second where the stream has video, else the first.
pub proof fn transmuxed_audio_is_placed(
    video: Seq<PesView>,
    with_video: bool,
    audio: Seq<PesView>,
    config: AudioView,
    sequence_number: u32,
    out: Seq<u8>,
)
    requires
        0 < audio.len() <= u32::MAX,
        !with_video || video.len() == 0,
        transmux::transmuxed(video, audio, with_video, Some(config), sequence_number) == Ok::<
            Seq<u8>,
            ErrorView,
        >(out),
        out.len() <= u32::MAX,
    ensures
        round_trip::whole_boxes(out),
        round_trip::boxes_of(out).len() == 2,
        audio_placed(
            round_trip::boxes_of(out)[0],
            round_trip::boxes_of(out)[1],
            audio,
            sequence_number,
            if with_video {
                2
            } else {
                1
            },
            config.sample_rate,
        ),
{
    let track_id: u32 = if with_video {
        2
    } else {
        1
    };
    assert(out =~= synthesis::audio_fragment(audio, sequence_number, track_id, config.sample_rate));
    lemma_audio_placed(audio, sequence_number, track_id, config.sample_rate);
    lemma_two(
        transmux::audio_moof(audio, sequence_number, track_id, config.sample_rate),
        cmaf::boxed(box_type::MDAT@, transmux::audio_data(audio, audio.len())),
    );
}

/// A segment that was transmuxed from both is a fragment for the video packets on track 1 and
/// then one for the audio packets on track 2, each placed where its own first packet stands.
#[verifier::spinoff_prover]
#[verifier::rlimit(60)]
pub proof fn transmuxed_tracks_are_placed(
    video: Seq<PesView>,
    audio: Seq<PesView>,
    config: AudioView,
    sequence_number: u32,
    out: Seq<u8>,
)
    requires
        0 < video.len() <= u32::MAX,
        0 < audio.len() <= u32::MAX,
        transmux::transmuxed(video, audio, true, Some(config), sequence_number) == Ok::<
            Seq<u8>,
            ErrorView,
        >(out),
        out.len() <= u32::MAX,
    ensures
        round_trip::whole_boxes(out),
        round_trip::boxes_of(out).len() == 4,
        video_placed(
            round_trip::boxes_of(out)[0],
            round_trip::boxes_of(out)[1],
            video,
            sequence_number,
        ),
        audio_placed(
            round_trip::boxes_of(out)[2],
            round_trip::boxes_of(out)[3],
            audio,
            sequence_number,
            2,
            config.sample_rate,
        ),
{
    let first = synthesis::video_fragment(video, sequence_number);
    let second = synthesis::audio_fragment(audio, sequence_number, 2, config.sample_rate);
    lemma_both(video, audio, config, sequence_number, out);
    lemma_video_placed(video, sequence_number);
    lemma_audio_placed(audio, sequence_number, 2, config.sample_rate);
    let a = transmux::video_moof(video, sequence_number, 1);
    let b = cmaf::boxed(box_type::MDAT@, transmux::video_data(video, video.len()));
    let c = transmux::audio_moof(audio, sequence_number, 2, config.sample_rate);
    let d = cmaf::boxed(box_type::MDAT@, transmux::audio_data(audio, audio.len()));
    assert(first == a + b && second == c + d);
    lemma_four(a, b, c, d);
}

proof fn lemma_both(
    video: Seq<PesView>,
    audio: Seq<PesView>,
    config: AudioView,
    sequence_number: u32,
    out: Seq<u8>,
)
    requires
        0 < video.len(),
        0 < audio.len(),
        transmux::transmuxed(video, audio, true, Some(config), sequence_number) == Ok::<
            Seq<u8>,
            ErrorView,
        >(out),
    ensures
        out == synthesis::video_fragment(video, sequence_number) + synthesis::audio_fragment(
            audio,
            sequence_number,
            2,
            config.sample_rate,
        ),
{
}

// AAC frames.

/// Whether bytes are the header of an AAC frame with a body of a length: the sync word, seven
/// bytes, or nine with a checksum, and the length of header and body in thirteen bits.
pub open spec fn frame_header(h: Seq<u8>, body: nat) -> bool {
    &&& h.len() == 7 || h.len() == 9
    &&& h[0] == 0xFF
    &&& h[1] >= 0xF0
    &&& (h[1] % 2 == 1) == (h.len() == 7)
    &&& (h[3] % 4) * 2048 + h[4] * 8 + h[5] / 32 == h.len() + body
}

/// Whether each header is that of its frame, and no frame is empty.
pub open spec fn all_frames(headers: Seq<Seq<u8>>, frames: Seq<Seq<u8>>) -> bool {
    forall|i: int|
        0 <= i < headers.len() ==> frame_header(#[trigger] headers[i], frames[i].len())
            && frames[i].len() > 0
}

/// The first `n` frames, each behind its header.
pub open spec fn headed_frames(headers: Seq<Seq<u8>>, frames: Seq<Seq<u8>>, n: nat) -> Seq<u8>
    decreases n,
{
    if n == 0 {
        Seq::empty()
    } else {
        headed_frames(headers, frames, (n - 1) as nat) + headers[n - 1] + frames[n - 1]
    }
}

proof fn lemma_frames_split(headers: Seq<Seq<u8>>, frames: Seq<Seq<u8>>, k: nat, n: nat)
    requires
        k < n <= headers.len(),
        frames.len() == headers.len(),
    ensures
        ({
            let at = headed_frames(headers, frames, k).len() as int;
            let s = headed_frames(headers, frames, n);
            let h = headers[k as int];
            let f = frames[k as int];
            &&& at + h.len() + f.len() <= s.len()
            &&& s.subrange(at, at + h.len()) == h
            &&& s.subrange(at + h.len(), at + h.len() + f.len()) == f
        }),
    decreases n,
{
    let at = headed_frames(headers, frames, k).len() as int;
    let s = headed_frames(headers, frames, n);
    let h = headers[k as int];
    let f = frames[k as int];
    if k + 1 == n {
        assert(s.subrange(at, at + h.len()) =~= h);
        assert(s.subrange(at + h.len(), at + h.len() + f.len()) =~= f);
    } else {
        lemma_frames_split(headers, frames, k, (n - 1) as nat);
        let t = headed_frames(headers, frames, (n - 1) as nat);
        assert(s.subrange(at, at + h.len()) =~= t.subrange(at, at + h.len()));
        assert(s.subrange(at + h.len(), at + h.len() + f.len()) =~= t.subrange(
            at + h.len(),
            at + h.len() + f.len(),
        ));
    }
}

#[verifier::rlimit(60)]
proof fn lemma_frames_from(headers: Seq<Seq<u8>>, frames: Seq<Seq<u8>>, k: nat)
    requires
        frames.len() == headers.len(),
        k <= headers.len(),
        all_frames(headers, frames),
    ensures
        transmux::adts_from(
            headed_frames(headers, frames, headers.len()),
            headed_frames(headers, frames, k).len() as int,
            cmaf::joined(frames, k),
        ) == cmaf::joined(frames, frames.len()),
    decreases headers.len() - k,
{
    let s = headed_frames(headers, frames, headers.len());
    let at = headed_frames(headers, frames, k).len() as int;
    if k < headers.len() {
        let h = headers[k as int];
        let f = frames[k as int];
        lemma_frames_split(headers, frames, k, headers.len());
        assert(frame_header(h, f.len()));
        assert forall|i: int| 0 <= i < h.len() implies s[at + i] == #[trigger] h[i] by {
            assert(s.subrange(at, at + h.len())[i] == s[at + i]);
        }
        assert(s[at] == h[0] && s[at + 1] == h[1] && s[at + 3] == h[3] && s[at + 4] == h[4] && s[at
            + 5] == h[5]);
        assert(transmux::adts_sync(s, at));
        assert(transmux::adts_header(s, at) == h.len());
        assert(transmux::adts_length(s, at) == h.len() + f.len());
        lemma_frames_from(headers, frames, k + 1);
    }
}

/// AAC frames that were written behind their headers come out one after the other, without the
/// headers.
pub proof fn headers_are_stripped_from_frames(headers: Seq<Seq<u8>>, frames: Seq<Seq<u8>>)
    requires
        frames.len() == headers.len(),
        all_frames(headers, frames),
    ensures
        transmux::adts_from(headed_frames(headers, frames, headers.len()), 0, Seq::empty())
            == cmaf::joined(frames, frames.len()),
{
    lemma_frames_from(headers, frames, 0);
}

} // verus!
