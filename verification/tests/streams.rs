use edgepack::error::EdgepackError;
use edgepack::media::box_type;
use edgepack::media::cmaf;
use edgepack::media::cmaf::EmsgBox;
use edgepack::media::segment::{extract_sample_sizes, find_moof_mdat, parse_moof_trun_only};
use edgepack::media::transmux::{
    build_audio_trun, build_video_trun, convert_annexb_to_avcc, extract_audio_config,
    extract_h264_nal_units, extract_video_config, has_idr_nal, strip_adts_headers,
    build_video_stbl, synthesize_init_segment, transmux_to_cmaf, AudioConfig, BitReader, VideoConfig,
};
use edgepack::media::ts::{
    decrypt_ts_segment, parse_adaptation_field, parse_timestamp, strip_padding, DemuxedSegment, PesPacket, TsCodec,
    TsDemuxer, TsPacket,
};
use edgepack::media::codec::extract_tracks;
use edgepack::media::{chunk, scte35, TrackType};

fn pes(stream_id: u8, pts: Option<u64>, data: Vec<u8>) -> PesPacket {
    PesPacket { stream_id, pts, dts: None, data }
}

fn sps_pps_idr() -> Vec<u8> {
    vec![
        0, 0, 0, 1, 0x67, 66, 0, 30, 0xF4, 0x0A, 0x0F, 0xC8, 0, 0, 1, 0x68, 0xCE, 0x38, 0x80, 0, 0, 0,
        1, 0x65, 0xAA, 0xBB,
    ]
}

fn adts(payload: &[u8]) -> Vec<u8> {
    let n = payload.len() + 7;
    let mut out = vec![
        0xFF,
        0xF1,
        0x50,
        0x80 | (n >> 11) as u8,
        (n >> 3) as u8,
        ((n & 7) << 5) as u8,
        0xFC,
    ];
    out.extend_from_slice(payload);
    out
}

#[test]
fn whole_segments_are_decrypted_and_unpadded() {
    let key = [
        0x2b, 0x7e, 0x15, 0x16, 0x28, 0xae, 0xd2, 0xa6, 0xab, 0xf7, 0x15, 0x88, 0x09, 0xcf, 0x4f,
        0x3c,
    ];
    let mut iv = [0u8; 16];
    for i in 0..16 {
        iv[i] = i as u8;
    }
    let cipher = [
        0x76, 0x49, 0xab, 0xac, 0x81, 0x19, 0xb2, 0x46, 0xce, 0xe9, 0x8e, 0x9b, 0x12, 0xe9, 0x19,
        0x7d,
    ];
    let plain = decrypt_ts_segment(&cipher, &key, &iv).unwrap();
    assert_eq!(plain[..4], [0x6b, 0xc1, 0xbe, 0xe2]);
    assert_eq!(plain.len(), 16);
    let short = decrypt_ts_segment(&cipher[..5], &key, &iv);
    assert_eq!(
        short.unwrap_err().to_string(),
        "AES-128-CBC data must be a multiple of 16 bytes, got 5"
    );
    assert_eq!(decrypt_ts_segment(&[], &key, &iv).unwrap(), Vec::<u8>::new());
}

#[test]
fn padding_comes_off_only_where_it_is_whole() {
    assert_eq!(strip_padding(vec![9, 9, 3, 3, 3]), vec![9, 9]);
    assert_eq!(strip_padding(vec![16; 16]), Vec::<u8>::new());
    assert_eq!(strip_padding(vec![9, 2, 3, 3]), vec![9, 2, 3, 3]);
    assert_eq!(strip_padding(vec![9, 0]), vec![9, 0]);
    assert_eq!(strip_padding(vec![9, 17]), vec![9, 17]);
    assert_eq!(strip_padding(vec![]), Vec::<u8>::new());
}

#[test]
fn timestamps_reach_33_bits() {
    assert_eq!(parse_timestamp(&[0xFF; 5]), 0x1_FFFF_FFFF);
    assert_eq!(parse_timestamp(&[0x21, 0, 1, 0, 3]), 1);
    assert_eq!(parse_timestamp(&[0x23, 0, 1, 0, 1]), 0x4000_0000);
}

fn section(pid: u16, payload: Vec<u8>) -> TsPacket {
    TsPacket {
        pid,
        pusi: true,
        continuity_counter: 0,
        adaptation_field: None,
        payload,
    }
}

fn pat(pmt_pid: u16) -> TsPacket {
    let mut p = vec![0, 0, 0xB0, 13, 0, 1, 0xC1, 0, 0, 0, 1];
    p.extend_from_slice(&[0xE0 | (pmt_pid >> 8) as u8, pmt_pid as u8, 0, 0, 0, 0]);
    section(0, p)
}

fn pmt(pid: u16, streams: &[(u8, u16)]) -> TsPacket {
    let n = 13 + 5 * streams.len();
    let mut p = vec![0, 2, 0xB0, n as u8, 0, 1, 0xC1, 0, 0, 0xE1, 0, 0xF0, 0];
    for (kind, id) in streams {
        p.extend_from_slice(&[*kind, 0xE0 | (id >> 8) as u8, *id as u8, 0xF0, 0]);
    }
    p.extend_from_slice(&[0, 0, 0, 0]);
    section(pid, p)
}

fn video(pid: u16, body: &[u8]) -> TsPacket {
    let mut p = vec![0, 0, 1, 0xE0, 0, 0, 0x80, 0x80, 5, 0x21, 0, 1, 0, 3];
    p.extend_from_slice(body);
    section(pid, p)
}

#[test]
fn chosen_streams_and_ended_packets_stay() {
    let mut d = TsDemuxer::new();
    d.push_packet(&pat(0x100)).unwrap();
    d.push_packet(&pmt(0x100, &[(0x1B, 0x101), (0x0F, 0x102)])).unwrap();
    d.push_packet(&video(0x101, &[1, 2])).unwrap();
    d.push_packet(&pmt(0x100, &[(0x24, 0x201)])).unwrap();
    d.push_packet(&video(0x201, &[9])).unwrap();
    d.push_packet(&video(0x101, &[3])).unwrap();
    let out = d.flush();
    assert_eq!(out.video_codec, Some(TsCodec::H264));
    assert_eq!(out.audio_codec, Some(TsCodec::Aac));
    assert_eq!(out.video_packets.len(), 2);
    assert_eq!(out.video_packets[0].data, vec![1, 2]);
    assert_eq!(out.video_packets[0].pts, Some(1));
    assert_eq!(out.video_packets[1].data, vec![3]);
}

#[test]
fn nal_units_are_cut_at_start_codes() {
    let nals = extract_h264_nal_units(&sps_pps_idr());
    assert_eq!(nals.len(), 3);
    assert_eq!(nals[1], (8, vec![0x68, 0xCE, 0x38, 0x80]));
    assert_eq!(nals[2], (5, vec![0x65, 0xAA, 0xBB]));
    assert!(has_idr_nal(&sps_pps_idr()));
    assert_eq!(extract_h264_nal_units(&[0, 0, 1, 0, 0, 1, 9]), vec![(9, vec![9])]);
    assert!(extract_h264_nal_units(&[1, 2, 3]).is_empty());
}

#[test]
fn length_prefixes_hold_the_units_without_parameter_sets() {
    assert_eq!(convert_annexb_to_avcc(&sps_pps_idr()), vec![0, 0, 0, 3, 0x65, 0xAA, 0xBB]);
    assert_eq!(
        convert_annexb_to_avcc(&[0, 0, 1, 0x41, 1, 0, 0, 1, 0x06, 2, 3]),
        vec![0, 0, 0, 2, 0x41, 1, 0, 0, 0, 3, 0x06, 2, 3]
    );
}

#[test]
fn exp_golomb_codes_have_their_values() {
    let mut r = BitReader::new(&[0b1_010_011_0, 0b0100_0010, 0b1_000_0000]);
    assert_eq!(r.read_exp_golomb(), 0);
    assert_eq!(r.read_exp_golomb(), 1);
    assert_eq!(r.read_exp_golomb(), 2);
    assert_eq!(r.read_exp_golomb(), 3);
    assert_eq!(r.read_exp_golomb(), 4);
    let mut s = BitReader::new(&[0b1_010_011_0, 0b0100_0010, 0b1_000_0000]);
    assert_eq!(s.read_signed_exp_golomb(), 0);
    assert_eq!(s.read_signed_exp_golomb(), 1);
    assert_eq!(s.read_signed_exp_golomb(), -1);
    assert_eq!(s.read_signed_exp_golomb(), 2);
    assert_eq!(s.read_signed_exp_golomb(), -2);
    let mut b = BitReader::new(&[0xA5]);
    assert_eq!(b.read_bits(3), 5);
    b.skip(1);
    assert_eq!(b.read_bits(8), 0b0101_0000);
}

#[test]
fn adts_frames_give_their_payloads() {
    let mut two = adts(&[1, 2, 3]);
    two.extend(adts(&[4]));
    assert_eq!(strip_adts_headers(&two), vec![1, 2, 3, 4]);
    let raw = vec![9; 10];
    assert_eq!(strip_adts_headers(&raw), raw);
    assert_eq!(strip_adts_headers(&[9; 6]), Vec::<u8>::new());
}

#[test]
fn track_runs_read_back() {
    let v = build_video_trun(&[3000, 3003], &[100, 70000], &[0x0200_0000, 0x0001_0000]);
    let run = cmaf::parse_trun(&v[8..]).unwrap();
    assert_eq!((run.flags, run.sample_count, run.data_offset), (0x701, 2, Some(0)));
    assert_eq!(run.entries[1].sample_duration, Some(3003));
    assert_eq!(run.entries[1].sample_size, Some(70000));
    assert_eq!(run.entries[1].sample_flags, Some(0x0001_0000));
    let a = build_audio_trun(&[1024], &[5]);
    let run = cmaf::parse_trun(&a[8..]).unwrap();
    assert_eq!((run.flags, run.entries[0].sample_size), (0x301, Some(5)));
    assert_eq!(run.entries[0].sample_flags, None);
}

#[test]
fn transmuxed_segments_read_back_as_their_samples() {
    let packets = vec![
        pes(0xE0, Some(9000), sps_pps_idr()),
        pes(0xE0, Some(12003), vec![0, 0, 1, 0x41, 7]),
    ];
    let config = extract_video_config(&packets[0]).unwrap();
    let demuxed = DemuxedSegment {
        video_packets: packets,
        audio_packets: vec![],
        video_codec: Some(TsCodec::H264),
        audio_codec: None,
        pmt: None,
    };
    let out = transmux_to_cmaf(&demuxed, Some(&config), None, 3).unwrap();
    let (moof, mdat) = find_moof_mdat(&out).unwrap();
    let run = parse_moof_trun_only(moof).unwrap();
    assert_eq!(extract_sample_sizes(&run).unwrap(), vec![7, 6]);
    assert_eq!(run.entries[0].sample_duration, Some(3003));
    assert_eq!(mdat, &[0, 0, 0, 3, 0x65, 0xAA, 0xBB, 0, 0, 0, 2, 0x41, 7]);
    let init = synthesize_init_segment(Some(&config), None).unwrap();
    let (headers, fault) = cmaf::scan_boxes(&init);
    assert!(fault.is_none());
    assert_eq!(headers.len(), 2);
    assert_eq!(headers[0].box_type, box_type::FTYP);
    assert_eq!(headers[1].box_type, box_type::MOOV);
}

#[test]
fn transmuxed_audio_reads_back_as_its_frames() {
    let packets = vec![pes(0xC0, Some(90000), adts(&[1, 2, 3])), pes(0xC0, None, adts(&[4]))];
    let config: AudioConfig = extract_audio_config(&packets[0]).unwrap();
    assert_eq!(config.sample_rate, 44100);
    let demuxed = DemuxedSegment {
        video_packets: vec![],
        audio_packets: packets,
        video_codec: None,
        audio_codec: Some(TsCodec::Aac),
        pmt: None,
    };
    let out = transmux_to_cmaf(&demuxed, None, Some(&config), 3).unwrap();
    let (moof, mdat) = find_moof_mdat(&out).unwrap();
    let run = parse_moof_trun_only(moof).unwrap();
    assert_eq!(extract_sample_sizes(&run).unwrap(), vec![3, 1]);
    assert_eq!(run.entries[1].sample_duration, Some(1024));
    assert_eq!(mdat, &[1, 2, 3, 4]);
}

#[test]
fn transmuxed_tracks_stand_one_after_the_other() {
    let video = vec![pes(0xE0, Some(9000), sps_pps_idr())];
    let audio = vec![pes(0xC0, Some(90000), adts(&[1, 2, 3]))];
    let video_config = extract_video_config(&video[0]).unwrap();
    let audio_config: AudioConfig = extract_audio_config(&audio[0]).unwrap();
    let demuxed = DemuxedSegment {
        video_packets: video,
        audio_packets: audio,
        video_codec: Some(TsCodec::H264),
        audio_codec: Some(TsCodec::Aac),
        pmt: None,
    };
    let out = transmux_to_cmaf(&demuxed, Some(&video_config), Some(&audio_config), 3).unwrap();
    let (headers, fault) = cmaf::scan_boxes(&out);
    assert!(fault.is_none());
    assert_eq!(headers.len(), 4);
    let (first, second) = out.split_at(headers[2].offset as usize);
    let (moof, mdat) = find_moof_mdat(first).unwrap();
    assert_eq!(mdat, &[0, 0, 0, 3, 0x65, 0xAA, 0xBB]);
    assert_eq!(extract_sample_sizes(&parse_moof_trun_only(moof).unwrap()).unwrap(), vec![7]);
    let (moof, mdat) = find_moof_mdat(second).unwrap();
    assert_eq!(mdat, &[1, 2, 3]);
    assert_eq!(extract_sample_sizes(&parse_moof_trun_only(moof).unwrap()).unwrap(), vec![3]);
}

#[test]
fn nothing_to_transmux_is_refused() {
    let empty = DemuxedSegment {
        video_packets: vec![],
        audio_packets: vec![],
        video_codec: None,
        audio_codec: None,
        pmt: None,
    };
    assert_eq!(
        transmux_to_cmaf(&empty, None, None, 0).unwrap_err().to_string(),
        "no video or audio data to transmux"
    );
    assert!(matches!(synthesize_init_segment(None, None), Err(EdgepackError::MediaParse(_))));
}

#[test]
fn chunks_are_disjoint_pairs_in_order() {
    let mut data = cmaf::make_box(&box_type::FTYP, &[0; 4]);
    for i in 0..2u8 {
        data.extend(cmaf::make_box(&box_type::MOOF, &[]));
        data.extend(cmaf::make_box(&box_type::MDAT, &[i; 3]));
    }
    let found = chunk::detect_chunk_boundaries(&data);
    assert_eq!(found.len(), 2);
    assert_eq!((found[0].offset, found[0].size), (12, 19));
    assert_eq!((found[1].offset, found[1].size), (31, 19));
    assert_eq!(chunk::extract_chunk(&data, &found[1]).unwrap(), data[31..50].to_vec());
    assert!(chunk::extract_chunk(&data[..40], &found[1]).is_none());
}

#[test]
fn splice_times_are_read_from_33_bits() {
    let info = scte35::parse_time_signal(&[0xFF, 0, 0, 0, 1]).unwrap();
    assert_eq!(info.pts_time, Some(0x1_0000_0001));
    let m = EmsgBox {
        version: 1,
        scheme_id_uri: "urn:scte:scte35:2013:bin".to_string(),
        value: String::new(),
        timescale: 1,
        presentation_time: 0,
        event_duration: 0,
        id: 0,
        message_data: vec![],
    };
    assert!(scte35::is_scte35_emsg(&m));
}

#[test]
fn the_pcr_is_in_90khz_ticks() {
    let field = parse_adaptation_field(&[7, 0x10, 0, 0, 0, 0x2D, 0, 0]);
    assert_eq!(field.length, 7);
    assert!(!field.random_access_indicator);
    assert_eq!(field.pcr, Some(90));
    let field = parse_adaptation_field(&[7, 0x50, 0xFF, 0xFF, 0xFF, 0xFF, 0x81, 0xFF]);
    assert!(field.random_access_indicator);
    assert_eq!(field.pcr, Some((1 << 33) - 1));
    assert_eq!(parse_adaptation_field(&[7, 0x10, 0, 0, 0, 0x2D, 0]).pcr, None);
}

fn video_config() -> VideoConfig {
    VideoConfig {
        codec: TsCodec::H264,
        width: 1920,
        height: 1080,
        sps: vec![0x67, 0x42, 0xC0, 0x1F, 0xE9],
        pps: vec![0x68, 0xCE, 0x38, 0x80],
        profile_idc: 0x42,
        level_idc: 0x1F,
        codec_string: "avc1.42c01f".into(),
    }
}

#[test]
fn a_video_sample_entry_counts_all_of_its_bytes() {
    let stbl = build_video_stbl(&video_config());
    assert_eq!(&stbl[28..32], b"avc1");
    assert_eq!(stbl[24..28], [0, 0, 0, 114]);
    let stsd = cmaf::find_child_box(&stbl[8..], &box_type::STSD).unwrap();
    let entries = &cmaf::box_payload(&stbl[8..], &stsd)[8..];
    assert_eq!(entries.len(), 114);
    assert_eq!(&entries[90..94], b"avcC");
}

#[test]
fn synthesized_tracks_are_read_back() {
    let video = video_config();
    let audio = AudioConfig {
        codec: TsCodec::Aac,
        sample_rate: 44100,
        channel_count: 2,
        aac_profile: 2,
        codec_string: "mp4a.40.2".into(),
    };
    let init = synthesize_init_segment(Some(&video), Some(&audio)).unwrap();
    let tracks = extract_tracks(&init).unwrap();
    assert_eq!(tracks.len(), 2);
    assert_eq!(tracks[0].track_type, TrackType::Video);
    assert_eq!((tracks[0].track_id, tracks[0].timescale), (1, 90000));
    assert_eq!(tracks[0].codec_string, "avc1.42c01f");
    assert_eq!(tracks[1].track_type, TrackType::Audio);
    assert_eq!((tracks[1].track_id, tracks[1].timescale), (2, 44100));
    assert_eq!(tracks[1].codec_string, "mp4a.40.2");
    assert!(tracks[0].kid.is_none() && tracks[1].kid.is_none());
}

#[test]
fn units_behind_start_codes_are_read_back() {
    let data = [0, 0, 1, 0x67, 0, 0, 3, 9, 0, 0, 0, 1, 0x68, 0, 7, 0, 0, 1, 0x65];
    let units = extract_h264_nal_units(&data);
    assert_eq!(
        units,
        vec![(7, vec![0x67, 0, 0, 3, 9]), (8, vec![0x68, 0, 7]), (5, vec![0x65])]
    );
}
