//! Where the boxes of a synthesized track say what a player needs: sizes, rates, channels, and
//! the parameter sets of the codec.

use crate::bytes;
use crate::media::ts::TsCodec;
use crate::media::transmux;
use crate::media::transmux::{AudioView, VideoView};
use crate::text;
use vstd::prelude::*;

verus! {

/// The sampling frequencies that an index stands for.
pub open spec fn frequencies() -> Seq<u32> {
    seq![
        96000u32,
        88200u32,
        64000u32,
        48000u32,
        44100u32,
        32000u32,
        24000u32,
        22050u32,
        16000u32,
        12000u32,
        11025u32,
        8000u32,
    ]
}

proof fn lemma_frequency(i: nat)
    requires
        i < 12,
    ensures
        transmux::rate_of(i as u8) == frequencies()[i as int],
        transmux::rate_index(frequencies()[i as int]) == i,
{
    let f = frequencies();
    assert(f[0] == 96000 && f[1] == 88200 && f[2] == 64000 && f[3] == 48000 && f[4] == 44100 && f[5]
        == 32000 && f[6] == 24000 && f[7] == 22050 && f[8] == 16000 && f[9] == 12000 && f[10]
        == 11025 && f[11] == 8000);
}

/// The start of an ADTS header: the sync word, then two bits for the profile, counted from one,
/// four for the frequency, one that does not matter, and three for the channels.
pub open spec fn adts_start(s: Seq<u8>, profile: nat, frequency: nat, spare: nat, channels: nat) -> bool {
    &&& s.len() >= 7
    &&& s[0] == 0xFF
    &&& 0xF0 <= s[1]
    &&& 1 <= profile <= 4
    &&& frequency < 12
    &&& spare < 2
    &&& channels < 8
    &&& s[2] == 64 * (profile - 1) + 4 * frequency + 2 * spare + channels / 4
    &&& s[3] / 64 == channels % 4
}

/// An ADTS header tells the profile, the sampling frequency and the channels of the audio.
pub proof fn adts_headers_are_read(
    s: Seq<u8>,
    profile: nat,
    frequency: nat,
    spare: nat,
    channels: nat,
)
    requires
        adts_start(s, profile, frequency, spare, channels),
    ensures
        transmux::audio_config_of(s) matches Ok(a) && {
            &&& a.codec == TsCodec::Aac
            &&& a.aac_profile == profile
            &&& a.sample_rate == frequencies()[frequency as int]
            &&& a.channel_count == channels
            &&& a.codec_string == "mp4a.40."@ + text::dec(profile)
        },
{
    lemma_frequency(frequency);
    assert((s[2] / 4) % 16 == frequency);
    assert(s[2] / 64 == profile - 1);
    assert(s[2] % 2 == channels / 4);
    assert(s[1] / 16 == 15);
}

/// The configuration in an audio track's descriptor has five bits for the profile, four for the
/// frequency and four for the channels.
pub proof fn descriptors_tell_the_audio(profile: u8, frequency: nat, channels: u8)
    requires
        profile < 32,
        frequency < 12,
        channels < 16,
    ensures
        ({
            let s = transmux::esds_box(profile, frequencies()[frequency as int], channels);
            &&& s.len() == 39
            &&& s[34] * 256 + s[35] == 2048 * profile + 128 * frequency + 8 * channels
        }),
{
    let rate = frequencies()[frequency as int];
    lemma_frequency(frequency);
    let s = transmux::esds_box(profile, rate, channels);
    let c = transmux::audio_specific(profile, rate, channels);
    assert(s[34] == c[0]);
    assert(s[35] == c[1]);
}

/// The first SPS and the first PPS of a stream, where the stream has both, are what a decoder is
/// set up with; profile, compatibility and level are bytes of that SPS.
pub proof fn decoders_are_set_up_with_the_first_sets(s: Seq<u8>)
    ensures
        transmux::video_config_of(s) matches Ok(v) ==> {
            let nals = transmux::nals_of(s);
            &&& exists|i: int|
                0 <= i < nals.len() && #[trigger] nals[i] == (7u8, v.sps) && forall|j: int|
                    0 <= j < i ==> (#[trigger] nals[j]).0 != 7
            &&& exists|i: int|
                0 <= i < nals.len() && #[trigger] nals[i] == (8u8, v.pps) && forall|j: int|
                    0 <= j < i ==> (#[trigger] nals[j]).0 != 8
            &&& v.sps.len() >= 4 ==> {
                &&& v.profile_idc == v.sps[1]
                &&& v.level_idc == v.sps[3]
                &&& v.codec_string == "avc1."@ + text::hex2(v.sps[1]) + text::hex2(v.sps[2])
                    + text::hex2(v.sps[3])
                &&& (v.width, v.height) == transmux::sps_dimensions(v.sps)
            }
        },
        transmux::video_config_of(s) is Err <==> {
            let nals = transmux::nals_of(s);
            ||| forall|i: int| 0 <= i < nals.len() ==> (#[trigger] nals[i]).0 != 7
            ||| forall|i: int| 0 <= i < nals.len() ==> (#[trigger] nals[i]).0 != 8
        },
{
    let nals = transmux::nals_of(s);
    lemma_first_nal(nals, 0, 7);
    lemma_first_nal(nals, 0, 8);
}

proof fn lemma_first_nal(nals: Seq<(u8, Seq<u8>)>, from: int, kind: u8)
    requires
        0 <= from,
    ensures
        match transmux::first_nal(nals, from, kind) {
            Some(nal) => exists|i: int|
                from <= i < nals.len() && #[trigger] nals[i] == (kind, nal) && forall|j: int|
                    from <= j < i ==> (#[trigger] nals[j]).0 != kind,
            None => forall|j: int| from <= j < nals.len() ==> (#[trigger] nals[j]).0 != kind,
        },
    decreases nals.len() - from,
{
    if from < nals.len() && nals[from].0 != kind {
        lemma_first_nal(nals, from + 1, kind);
        if let Some(nal) = transmux::first_nal(nals, from + 1, kind) {
            let i = choose|i: int|
                from + 1 <= i < nals.len() && #[trigger] nals[i] == (kind, nal) && forall|j: int|
                    from + 1 <= j < i ==> (#[trigger] nals[j]).0 != kind;
            assert(nals[i] == (kind, nal));
        }
    } else if from < nals.len() {
        assert(nals[from] == (kind, nals[from].1));
    }
}

/// A decoder configuration record gives back the parameter sets that it was made of, with the
/// length of each, and says that sample units have four-byte lengths.
#[verifier::rlimit(40)]
pub proof fn records_give_the_parameter_sets(
    sps: Seq<u8>,
    pps: Seq<u8>,
    profile: u8,
    level: u8,
)
    requires
        3 <= sps.len() <= u16::MAX,
        pps.len() <= u16::MAX,
    ensures
        ({
            let s = transmux::avc_config(sps, pps, profile, level);
            let n = sps.len() as int;
            &&& s.len() == 19 + n + pps.len()
            &&& s[8] == 1
            &&& s[9] == profile
            &&& s[10] == sps[2]
            &&& s[11] == level
            &&& s[12] % 4 == 3
            &&& s[13] % 32 == 1
            &&& bytes::be16(s, 14) == n
            &&& s.subrange(16, 16 + n) == sps
            &&& s[16 + n] == 1
            &&& bytes::be16(s, 17 + n) == pps.len()
            &&& s.subrange(19 + n, s.len() as int) == pps
        }),
{
    let s = transmux::avc_config(sps, pps, profile, level);
    let n = sps.len() as int;
    assert(s.subrange(14, 16) =~= bytes::bytes16(sps.len() as u16));
    bytes::lemma_be16_of_bytes16(s, 14, sps.len() as u16);
    assert(s.subrange(16, 16 + n) =~= sps);
    assert(s.subrange(17 + n, 19 + n) =~= bytes::bytes16(pps.len() as u16));
    bytes::lemma_be16_of_bytes16(s, 17 + n, pps.len() as u16);
    assert(s.subrange(19 + n, s.len() as int) =~= pps);
}

/// A video sample entry says the size of the picture and ends with the decoder configuration.
#[verifier::rlimit(40)]
pub proof fn video_entries_tell_the_size(v: VideoView)
    ensures
        ({
            let s = transmux::avc1_entry(v);
            &&& s.len() >= 86
            &&& bytes::be16(s, 14) == 1
            &&& bytes::be16(s, 32) == v.width
            &&& bytes::be16(s, 34) == v.height
            &&& s.subrange(86, s.len() as int) == transmux::avc_config(
                v.sps,
                v.pps,
                v.profile_idc,
                v.level_idc,
            )
        }),
{
    let s = transmux::avc1_entry(v);
    assert(s.subrange(14, 16) =~= bytes::bytes16(1));
    assert(s.subrange(32, 34) =~= bytes::bytes16(v.width));
    assert(s.subrange(34, 36) =~= bytes::bytes16(v.height));
    bytes::lemma_be16_of_bytes16(s, 14, 1);
    bytes::lemma_be16_of_bytes16(s, 32, v.width);
    bytes::lemma_be16_of_bytes16(s, 34, v.height);
    assert(s.subrange(86, s.len() as int) =~= transmux::avc_config(
        v.sps,
        v.pps,
        v.profile_idc,
        v.level_idc,
    ));
}

/// An audio sample entry says the channels and the rate and ends with the descriptor of the
/// stream.
#[verifier::rlimit(40)]
pub proof fn audio_entries_tell_the_sound(a: AudioView)
    requires
        a.sample_rate < 0x1_0000,
    ensures
        ({
            let s = transmux::mp4a_entry(a);
            &&& s.len() >= 36
            &&& bytes::be16(s, 14) == 1
            &&& bytes::be16(s, 24) == a.channel_count
            &&& bytes::be32(s, 32) == 0x1_0000 * a.sample_rate
            &&& s.subrange(36, s.len() as int) == transmux::esds_box(
                a.aac_profile,
                a.sample_rate,
                a.channel_count,
            )
        }),
{
    let s = transmux::mp4a_entry(a);
    assert(s.subrange(14, 16) =~= bytes::bytes16(1));
    assert(s.subrange(24, 26) =~= bytes::bytes16(a.channel_count as u16));
    assert(s.subrange(32, 36) =~= bytes::bytes32(transmux::fixed16(a.sample_rate)));
    bytes::lemma_be16_of_bytes16(s, 14, 1);
    bytes::lemma_be16_of_bytes16(s, 24, a.channel_count as u16);
    bytes::lemma_be32_of_bytes32(s, 32, transmux::fixed16(a.sample_rate));
    assert(s.subrange(36, s.len() as int) =~= transmux::esds_box(
        a.aac_profile,
        a.sample_rate,
        a.channel_count,
    ));
}

/// A track header says the number of the track, whether it sounds, and the size of its picture.
#[verifier::rlimit(40)]
pub proof fn track_headers_tell_the_size(track_id: u32, width: u32, height: u32, is_audio: bool)
    requires
        width < 0x1_0000,
        height < 0x1_0000,
    ensures
        ({
            let s = transmux::tkhd_box(track_id, width, height, is_audio);
            &&& s.len() == 92
            &&& s[8] == 0
            &&& s[11] == 3
            &&& bytes::be32(s, 20) == track_id
            &&& is_audio <==> bytes::be16(s, 44) != 0
            &&& bytes::be32(s, 84) == 0x1_0000 * width
            &&& bytes::be32(s, 88) == 0x1_0000 * height
        }),
{
    let s = transmux::tkhd_box(track_id, width, height, is_audio);
    let volume: u16 = if is_audio {
        0x100
    } else {
        0
    };
    assert(s.subrange(20, 24) =~= bytes::bytes32(track_id));
    bytes::lemma_be32_of_bytes32(s, 20, track_id);
    assert(s.subrange(44, 46) =~= bytes::bytes16(volume));
    bytes::lemma_be16_of_bytes16(s, 44, volume);
    assert(s.subrange(84, 88) =~= bytes::bytes32(transmux::fixed16(width)));
    bytes::lemma_be32_of_bytes32(s, 84, transmux::fixed16(width));
    assert(s.subrange(88, 92) =~= bytes::bytes32(transmux::fixed16(height)));
    bytes::lemma_be32_of_bytes32(s, 88, transmux::fixed16(height));
}

/// The fragment defaults of a track name the track and its only sample entry.
pub proof fn fragment_defaults_name_the_track(track_id: u32)
    ensures
        ({
            let s = transmux::trex_box(track_id);
            &&& s.len() == 32
            &&& bytes::be32(s, 12) == track_id
            &&& bytes::be32(s, 16) == 1
        }),
{
    let s = transmux::trex_box(track_id);
    assert(s.subrange(12, 16) =~= bytes::bytes32(track_id));
    bytes::lemma_be32_of_bytes32(s, 12, track_id);
    assert(s.subrange(16, 20) =~= bytes::bytes32(1));
    bytes::lemma_be32_of_bytes32(s, 16, 1);
}

} // verus!
