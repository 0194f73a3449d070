use edgepack::media::TrackType;
use edgepack::media::codec::{TrackInfo, TrackKeyMapping, build_hevc_constraint_string, extract_codec_string, extract_tracks, parse_descriptor_size, parse_hdlr_track_type, parse_mdhd_timescale, parse_tkhd_track_id};

// ---- Helpers for building synthetic MP4 structures ----

/// Build a minimal box with header + payload.
fn make_box(box_type: &[u8; 4], payload: &[u8]) -> Vec<u8> {
    let size = 8 + payload.len() as u32;
    let mut data = Vec::new();
    data.extend_from_slice(&size.to_be_bytes());
    data.extend_from_slice(box_type);
    data.extend_from_slice(payload);
    data
}

/// Build a tkhd box with a given track ID (version 0).
fn make_tkhd(track_id: u32) -> Vec<u8> {
    let mut payload = Vec::new();
    // version(1) + flags(3)
    payload.extend_from_slice(&[0u8; 4]);
    // creation_time(4) + modification_time(4)
    payload.extend_from_slice(&[0u8; 8]);
    // track_id(4)
    payload.extend_from_slice(&track_id.to_be_bytes());
    // remaining tkhd fields (reserved, duration, etc.)
    payload.extend_from_slice(&[0u8; 60]);
    make_box(b"tkhd", &payload)
}

/// Build an hdlr box with a given handler type.
fn make_hdlr(handler: &[u8; 4]) -> Vec<u8> {
    let mut payload = Vec::new();
    // version(1) + flags(3)
    payload.extend_from_slice(&[0u8; 4]);
    // pre_defined(4)
    payload.extend_from_slice(&[0u8; 4]);
    // handler_type(4)
    payload.extend_from_slice(handler);
    // reserved(12) + name(variable)
    payload.extend_from_slice(&[0u8; 12]);
    payload.push(0); // null terminator for name
    make_box(b"hdlr", &payload)
}

/// Build an mdhd box with a given timescale (version 0).
fn make_mdhd(timescale: u32) -> Vec<u8> {
    let mut payload = Vec::new();
    // version(1) + flags(3)
    payload.extend_from_slice(&[0u8; 4]);
    // creation_time(4) + modification_time(4)
    payload.extend_from_slice(&[0u8; 8]);
    // timescale(4)
    payload.extend_from_slice(&timescale.to_be_bytes());
    // duration(4) + language(2) + pre_defined(2)
    payload.extend_from_slice(&[0u8; 8]);
    make_box(b"mdhd", &payload)
}

/// Build a video sample entry with an avcC config box.
fn make_avc1_entry(profile: u8, constraint: u8, level: u8) -> Vec<u8> {
    let mut payload = Vec::new();
    // Video sample entry fixed fields:
    // reserved(6) + data_ref_index(2) + pre_defined(2) + reserved(2)
    // + pre_defined(12) + width(2) + height(2) + horiz_res(4) + vert_res(4)
    // + reserved(4) + frame_count(2) + compressor_name(32) + depth(2) + pre_defined(2)
    // Total: 70 bytes
    payload.extend_from_slice(&[0u8; 70]);

    // avcC box: configurationVersion(1) + profileIdc(1) + constraintFlags(1) + levelIdc(1) + rest
    let mut avcc_payload = vec![1u8]; // configurationVersion
    avcc_payload.push(profile);
    avcc_payload.push(constraint);
    avcc_payload.push(level);
    avcc_payload.extend_from_slice(&[0u8; 4]); // remaining avcC fields

    let avcc = make_box(b"avcC", &avcc_payload);
    payload.extend_from_slice(&avcc);

    make_box(b"avc1", &payload)
}

/// Build an audio sample entry with an esds box.
fn make_mp4a_entry(audio_object_type: u8) -> Vec<u8> {
    let mut payload = Vec::new();
    // Audio sample entry fixed fields:
    // reserved(6) + data_ref_index(2) + reserved(8) + channel_count(2)
    // + sample_size(2) + pre_defined(2) + reserved(2) + sample_rate(4)
    // Total: 28 bytes
    payload.extend_from_slice(&[0u8; 28]);

    // esds box with embedded AudioSpecificConfig
    let mut esds_payload = Vec::new();
    // version(4)
    esds_payload.extend_from_slice(&[0u8; 4]);
    // ES_Descriptor: tag(1) + size(1) + ES_ID(2) + flags(1)
    esds_payload.push(0x03); // ES_Descriptor tag
    esds_payload.push(23); // size
    esds_payload.extend_from_slice(&[0, 1]); // ES_ID
    esds_payload.push(0); // streamDependenceFlag, etc.
    // DecoderConfigDescriptor: tag(1) + size(1) + objectTypeIndication(1) + streamType(1)
    //   + bufferSizeDB(3) + maxBitrate(4) + avgBitrate(4)
    esds_payload.push(0x04); // DecoderConfigDescriptor tag
    esds_payload.push(15); // size
    esds_payload.push(0x40); // objectTypeIndication = Audio ISO/IEC 14496-3
    esds_payload.push(0x15); // streamType = audio
    esds_payload.extend_from_slice(&[0u8; 3]); // bufferSizeDB
    esds_payload.extend_from_slice(&[0u8; 4]); // maxBitrate
    esds_payload.extend_from_slice(&[0u8; 4]); // avgBitrate
    // DecoderSpecificInfo: tag(1) + size(1) + AudioSpecificConfig
    esds_payload.push(0x05); // DecoderSpecificInfo tag
    esds_payload.push(2); // size
    // AudioSpecificConfig: first 5 bits = audioObjectType, next 4 = frequency index
    // AOT in bits: aot << 3 | freq_index >> 1
    let asc_byte1 = (audio_object_type << 3) | 0x03; // freq_index = 4 (44100) -> 0b0100 >> 1 = 0b010 -> 3? Let's just put 3
    let asc_byte2 = 0x90; // freq_index low bit(1) + channel_config(4) + padding
    esds_payload.push(asc_byte1);
    esds_payload.push(asc_byte2);

    let esds = make_box(b"esds", &esds_payload);
    payload.extend_from_slice(&esds);

    make_box(b"mp4a", &payload)
}

/// Build a stsd box wrapping a sample entry.
fn make_stsd(entry: &[u8]) -> Vec<u8> {
    let mut payload = Vec::new();
    // version(1) + flags(3)
    payload.extend_from_slice(&[0u8; 4]);
    // entry_count(4)
    payload.extend_from_slice(&1u32.to_be_bytes());
    // entry
    payload.extend_from_slice(entry);
    make_box(b"stsd", &payload)
}

/// Build a full moov structure with one track: trak { tkhd, mdia { mdhd, hdlr, minf { stbl { stsd } } } }
fn make_moov_single_track(
    track_id: u32,
    handler: &[u8; 4],
    timescale: u32,
    entry: &[u8],
) -> Vec<u8> {
    let stsd = make_stsd(entry);
    let stbl = make_box(b"stbl", &stsd);
    let minf = make_box(b"minf", &stbl);
    let mdhd = make_mdhd(timescale);
    let hdlr = make_hdlr(handler);
    let mut mdia_children = Vec::new();
    mdia_children.extend_from_slice(&mdhd);
    mdia_children.extend_from_slice(&hdlr);
    mdia_children.extend_from_slice(&minf);
    let mdia = make_box(b"mdia", &mdia_children);
    let tkhd = make_tkhd(track_id);
    let mut trak_children = Vec::new();
    trak_children.extend_from_slice(&tkhd);
    trak_children.extend_from_slice(&mdia);
    let trak = make_box(b"trak", &trak_children);
    make_box(b"moov", &trak)
}

/// Build an init segment: ftyp + moov
fn make_init(moov: &[u8]) -> Vec<u8> {
    let mut data = Vec::new();
    let ftyp = make_box(b"ftyp", b"isom\x00\x00\x02\x00");
    data.extend_from_slice(&ftyp);
    data.extend_from_slice(moov);
    data
}

// ---- TrackKeyMapping tests ----

#[test]
fn track_key_mapping_single_returns_same_kid_for_all() {
    let kid = [0x01; 16];
    let mapping = TrackKeyMapping::single(kid);
    assert_eq!(mapping.kid_for_track(TrackType::Video), Some(&kid));
    assert_eq!(mapping.kid_for_track(TrackType::Audio), Some(&kid));
    assert_eq!(mapping.kid_for_track(TrackType::Subtitle), Some(&kid));
    assert!(!mapping.is_multi_key());
    assert_eq!(mapping.all_kids(), vec![kid]);
}

#[test]
fn track_key_mapping_per_type_returns_correct_kids() {
    let video_kid = [0xAA; 16];
    let audio_kid = [0xBB; 16];
    let mapping = TrackKeyMapping::per_type(video_kid, audio_kid);
    assert_eq!(mapping.kid_for_track(TrackType::Video), Some(&video_kid));
    assert_eq!(mapping.kid_for_track(TrackType::Audio), Some(&audio_kid));
    assert!(mapping.is_multi_key());
    let kids = mapping.all_kids();
    assert_eq!(kids.len(), 2);
    assert!(kids.contains(&video_kid));
    assert!(kids.contains(&audio_kid));
}

#[test]
fn track_key_mapping_fallback_to_first() {
    let video_kid = [0xAA; 16];
    let audio_kid = [0xBB; 16];
    let mapping = TrackKeyMapping::per_type(video_kid, audio_kid);
    // Subtitle isn't mapped — should fall back to first entry (Video)
    assert_eq!(mapping.kid_for_track(TrackType::Subtitle), Some(&video_kid));
}

#[test]
fn track_key_mapping_from_tracks_empty() {
    let mapping = TrackKeyMapping::from_tracks(&[]);
    assert!(mapping.entries().is_empty());
    assert!(mapping.all_kids().is_empty());
}

#[test]
fn track_key_mapping_from_tracks_with_kids() {
    let tracks = vec![
        TrackInfo {
            track_type: TrackType::Video,
            track_id: 1,
            codec_string: "avc1.64001f".to_string(),
            timescale: 90000,
            kid: Some([0xAA; 16]),
        },
        TrackInfo {
            track_type: TrackType::Audio,
            track_id: 2,
            codec_string: "mp4a.40.2".to_string(),
            timescale: 44100,
            kid: Some([0xBB; 16]),
        },
    ];
    let mapping = TrackKeyMapping::from_tracks(&tracks);
    assert_eq!(mapping.kid_for_track(TrackType::Video), Some(&[0xAA; 16]));
    assert_eq!(mapping.kid_for_track(TrackType::Audio), Some(&[0xBB; 16]));
    assert!(mapping.is_multi_key());
}

#[test]
fn track_key_mapping_from_tracks_no_kids() {
    let tracks = vec![TrackInfo {
        track_type: TrackType::Video,
        track_id: 1,
        codec_string: "avc1.64001f".to_string(),
        timescale: 90000,
        kid: None,
    }];
    let mapping = TrackKeyMapping::from_tracks(&tracks);
    assert!(mapping.entries().is_empty());
}

// ---- tkhd parsing ----

#[test]
fn parse_tkhd_track_id_v0() {
    let tkhd = make_tkhd(42);
    // tkhd box: header(8) + payload
    let payload = &tkhd[8..];
    assert_eq!(parse_tkhd_track_id(payload), 42);
}

#[test]
fn parse_tkhd_track_id_v1() {
    let mut payload = Vec::new();
    // version 1 + flags(3)
    payload.push(1);
    payload.extend_from_slice(&[0u8; 3]);
    // creation_time(8) + modification_time(8)
    payload.extend_from_slice(&[0u8; 16]);
    // track_id(4)
    payload.extend_from_slice(&99u32.to_be_bytes());
    payload.extend_from_slice(&[0u8; 60]);
    assert_eq!(parse_tkhd_track_id(&payload), 99);
}

// ---- hdlr parsing ----

#[test]
fn parse_hdlr_video() {
    let hdlr = make_hdlr(b"vide");
    let payload = &hdlr[8..];
    assert_eq!(parse_hdlr_track_type(payload), TrackType::Video);
}

#[test]
fn parse_hdlr_audio() {
    let hdlr = make_hdlr(b"soun");
    let payload = &hdlr[8..];
    assert_eq!(parse_hdlr_track_type(payload), TrackType::Audio);
}

#[test]
fn parse_hdlr_too_short() {
    assert_eq!(parse_hdlr_track_type(&[0u8; 4]), TrackType::Unknown);
}

// ---- mdhd parsing ----

#[test]
fn parse_mdhd_timescale_v0() {
    let mdhd = make_mdhd(90000);
    let payload = &mdhd[8..];
    assert_eq!(parse_mdhd_timescale(payload), 90000);
}

#[test]
fn parse_mdhd_timescale_v1() {
    let mut payload = Vec::new();
    payload.push(1); // version 1
    payload.extend_from_slice(&[0u8; 3]); // flags
    payload.extend_from_slice(&[0u8; 16]); // creation_time(8) + modification_time(8)
    payload.extend_from_slice(&44100u32.to_be_bytes()); // timescale
    payload.extend_from_slice(&[0u8; 12]); // remaining
    assert_eq!(parse_mdhd_timescale(&payload), 44100);
}

#[test]
fn parse_mdhd_too_short() {
    assert_eq!(parse_mdhd_timescale(&[0u8; 4]), 0);
}

// ---- H.264 codec string ----

#[test]
fn extract_avc_codec_string() {
    let entry = make_avc1_entry(0x64, 0x00, 0x1f);
    let entry_payload = &entry[8..]; // skip box header
    let codec = extract_codec_string(b"avc1", entry_payload);
    assert_eq!(codec, "avc1.64001f");
}

#[test]
fn extract_avc_codec_baseline() {
    let entry = make_avc1_entry(0x42, 0xC0, 0x1E);
    let entry_payload = &entry[8..];
    let codec = extract_codec_string(b"avc1", entry_payload);
    assert_eq!(codec, "avc1.42c01e");
}

#[test]
fn extract_avc_codec_no_avcc_fallback() {
    let payload = vec![0u8; 70]; // video entry prefix, no avcC
    let codec = extract_codec_string(b"avc1", &payload);
    assert_eq!(codec, "avc1");
}

// ---- AAC codec string ----

#[test]
fn extract_aac_codec_string_lc() {
    let entry = make_mp4a_entry(2); // AAC-LC = AOT 2
    let entry_payload = &entry[8..];
    let codec = extract_codec_string(b"mp4a", entry_payload);
    assert_eq!(codec, "mp4a.40.2");
}

#[test]
fn extract_aac_codec_string_he() {
    let entry = make_mp4a_entry(5); // HE-AAC = AOT 5
    let entry_payload = &entry[8..];
    let codec = extract_codec_string(b"mp4a", entry_payload);
    assert_eq!(codec, "mp4a.40.5");
}

#[test]
fn extract_aac_codec_no_esds_default() {
    let payload = vec![0u8; 28]; // audio entry prefix, no esds
    let codec = extract_codec_string(b"mp4a", &payload);
    assert_eq!(codec, "mp4a.40.2"); // defaults to AAC-LC
}

// ---- Simple codec strings ----

#[test]
fn extract_simple_codec_strings() {
    assert_eq!(extract_codec_string(b"ac-3", &[]), "ac-3");
    assert_eq!(extract_codec_string(b"ec-3", &[]), "ec-3");
    assert_eq!(extract_codec_string(b"Opus", &[]), "opus");
    assert_eq!(extract_codec_string(b"fLaC", &[]), "flac");
}

// ---- VP9 codec string ----

#[test]
fn extract_vp9_codec_string() {
    // Build a vpcC box inside a dummy entry payload
    let mut vpcc_payload = Vec::new();
    vpcc_payload.push(1); // version
    vpcc_payload.extend_from_slice(&[0u8; 3]); // flags
    vpcc_payload.push(0); // profile = 0
    vpcc_payload.push(31); // level = 3.1
    vpcc_payload.push(0x80); // bitDepth = 8, chromaSubsampling = 0, fullRange = 0
    vpcc_payload.push(0); // padding
    let vpcc = make_box(b"vpcC", &vpcc_payload);

    let mut entry_payload = vec![0u8; 70]; // video entry prefix
    entry_payload.extend_from_slice(&vpcc);

    let codec = extract_codec_string(b"vp09", &entry_payload);
    assert_eq!(codec, "vp09.00.31.08");
}

// ---- AV1 codec string ----

#[test]
fn extract_av1_codec_string() {
    // Build an av1C box
    let mut av1c_payload = Vec::new();
    av1c_payload.push(0x81); // marker(1) | version(7) = (1, 1)
    av1c_payload.push(0x04); // seq_profile(3)=0 | seq_level_idx_0(5)=4
    av1c_payload.push(0x00); // tier=0 | high_bitdepth=0 | twelve_bit=0 ...
    av1c_payload.push(0x00);
    let av1c = make_box(b"av1C", &av1c_payload);

    let mut entry_payload = vec![0u8; 70];
    entry_payload.extend_from_slice(&av1c);

    let codec = extract_codec_string(b"av01", &entry_payload);
    assert_eq!(codec, "av01.0.04M.08");
}

#[test]
fn extract_av1_codec_string_10bit() {
    let mut av1c_payload = Vec::new();
    av1c_payload.push(0x81);
    av1c_payload.push(0x0D); // profile=0 | level=13
    av1c_payload.push(0x40); // tier=0 | high_bitdepth=1 | twelve_bit=0
    av1c_payload.push(0x00);
    let av1c = make_box(b"av1C", &av1c_payload);

    let mut entry_payload = vec![0u8; 70];
    entry_payload.extend_from_slice(&av1c);

    let codec = extract_codec_string(b"av01", &entry_payload);
    assert_eq!(codec, "av01.0.13M.10");
}

// ---- HEVC constraint string ----

#[test]
fn hevc_constraint_string_trailing_zeros_omitted() {
    assert_eq!(build_hevc_constraint_string(&[0xB0, 0, 0, 0, 0, 0]), "B0");
    assert_eq!(build_hevc_constraint_string(&[0x90, 0, 0, 0, 0, 0]), "90");
}

#[test]
fn hevc_constraint_string_multiple_bytes() {
    assert_eq!(build_hevc_constraint_string(&[0xB0, 0x01, 0, 0, 0, 0]), "B0.1");
}

#[test]
fn hevc_constraint_string_all_zero() {
    assert_eq!(build_hevc_constraint_string(&[0, 0, 0, 0, 0, 0]), "");
}

// ---- extract_tracks integration ----

#[test]
fn extract_tracks_single_video() {
    let entry = make_avc1_entry(0x64, 0x00, 0x1f);
    let moov = make_moov_single_track(1, b"vide", 90000, &entry);
    let init = make_init(&moov);

    let tracks = extract_tracks(&init).unwrap();
    assert_eq!(tracks.len(), 1);
    assert_eq!(tracks[0].track_type, TrackType::Video);
    assert_eq!(tracks[0].track_id, 1);
    assert_eq!(tracks[0].codec_string, "avc1.64001f");
    assert_eq!(tracks[0].timescale, 90000);
    assert!(tracks[0].kid.is_none());
}

#[test]
fn extract_tracks_single_audio() {
    let entry = make_mp4a_entry(2);
    let moov = make_moov_single_track(2, b"soun", 44100, &entry);
    let init = make_init(&moov);

    let tracks = extract_tracks(&init).unwrap();
    assert_eq!(tracks.len(), 1);
    assert_eq!(tracks[0].track_type, TrackType::Audio);
    assert_eq!(tracks[0].track_id, 2);
    assert_eq!(tracks[0].codec_string, "mp4a.40.2");
    assert_eq!(tracks[0].timescale, 44100);
}

#[test]
fn extract_tracks_multi_track() {
    let video_entry = make_avc1_entry(0x64, 0x00, 0x1f);
    let audio_entry = make_mp4a_entry(2);

    // Build two trak boxes
    let stsd_v = make_stsd(&video_entry);
    let stbl_v = make_box(b"stbl", &stsd_v);
    let minf_v = make_box(b"minf", &stbl_v);
    let mdhd_v = make_mdhd(90000);
    let hdlr_v = make_hdlr(b"vide");
    let mut mdia_v_children = Vec::new();
    mdia_v_children.extend_from_slice(&mdhd_v);
    mdia_v_children.extend_from_slice(&hdlr_v);
    mdia_v_children.extend_from_slice(&minf_v);
    let mdia_v = make_box(b"mdia", &mdia_v_children);
    let tkhd_v = make_tkhd(1);
    let mut trak_v_children = Vec::new();
    trak_v_children.extend_from_slice(&tkhd_v);
    trak_v_children.extend_from_slice(&mdia_v);
    let trak_v = make_box(b"trak", &trak_v_children);

    let stsd_a = make_stsd(&audio_entry);
    let stbl_a = make_box(b"stbl", &stsd_a);
    let minf_a = make_box(b"minf", &stbl_a);
    let mdhd_a = make_mdhd(44100);
    let hdlr_a = make_hdlr(b"soun");
    let mut mdia_a_children = Vec::new();
    mdia_a_children.extend_from_slice(&mdhd_a);
    mdia_a_children.extend_from_slice(&hdlr_a);
    mdia_a_children.extend_from_slice(&minf_a);
    let mdia_a = make_box(b"mdia", &mdia_a_children);
    let tkhd_a = make_tkhd(2);
    let mut trak_a_children = Vec::new();
    trak_a_children.extend_from_slice(&tkhd_a);
    trak_a_children.extend_from_slice(&mdia_a);
    let trak_a = make_box(b"trak", &trak_a_children);

    let mut moov_children = Vec::new();
    moov_children.extend_from_slice(&trak_v);
    moov_children.extend_from_slice(&trak_a);
    let moov = make_box(b"moov", &moov_children);
    let init = make_init(&moov);

    let tracks = extract_tracks(&init).unwrap();
    assert_eq!(tracks.len(), 2);

    let video = tracks.iter().find(|t| t.track_type == TrackType::Video).unwrap();
    assert_eq!(video.track_id, 1);
    assert_eq!(video.codec_string, "avc1.64001f");
    assert_eq!(video.timescale, 90000);

    let audio = tracks.iter().find(|t| t.track_type == TrackType::Audio).unwrap();
    assert_eq!(audio.track_id, 2);
    assert_eq!(audio.codec_string, "mp4a.40.2");
    assert_eq!(audio.timescale, 44100);
}

#[test]
fn extract_tracks_encrypted_entry_with_kid() {
    // Build an encrypted video entry: encv { video_data, sinf { frma, schm, schi { tenc } } }
    let mut entry_payload = vec![0u8; 70]; // video sample entry prefix

    // avcC config
    let avcc_payload = vec![1u8, 0x64, 0x00, 0x1f, 0, 0, 0, 0];
    let avcc = make_box(b"avcC", &avcc_payload);
    entry_payload.extend_from_slice(&avcc);

    // sinf box
    let kid = [0xCC; 16];
    let mut sinf_children = Vec::new();
    // frma
    sinf_children.extend_from_slice(&make_box(b"frma", b"avc1"));
    // schm
    let mut schm_payload = vec![0u8; 4]; // version + flags
    schm_payload.extend_from_slice(b"cenc");
    schm_payload.extend_from_slice(&0x00010000u32.to_be_bytes());
    sinf_children.extend_from_slice(&make_box(b"schm", &schm_payload));
    // schi { tenc }
    let mut tenc_payload = Vec::new();
    tenc_payload.push(0); // version
    tenc_payload.extend_from_slice(&[0u8; 3]); // flags
    tenc_payload.push(0); // crypt_skip
    tenc_payload.push(1); // isProtected
    tenc_payload.push(8); // ivSize
    tenc_payload.extend_from_slice(&kid);
    let tenc = make_box(b"tenc", &tenc_payload);
    let schi = make_box(b"schi", &tenc);
    sinf_children.extend_from_slice(&schi);

    let sinf = make_box(b"sinf", &sinf_children);
    entry_payload.extend_from_slice(&sinf);

    let entry = make_box(b"encv", &entry_payload);
    let moov = make_moov_single_track(1, b"vide", 90000, &entry);
    let init = make_init(&moov);

    let tracks = extract_tracks(&init).unwrap();
    assert_eq!(tracks.len(), 1);
    assert_eq!(tracks[0].track_type, TrackType::Video);
    assert_eq!(tracks[0].codec_string, "avc1.64001f");
    assert_eq!(tracks[0].kid, Some(kid));
}

#[test]
fn extract_tracks_no_moov_errors() {
    let data = make_box(b"ftyp", b"isom\x00\x00\x02\x00");
    let result = extract_tracks(&data);
    assert!(result.is_err());
}

// ---- descriptor size parsing ----

#[test]
fn parse_descriptor_size_single_byte() {
    let (size, bytes) = parse_descriptor_size(&[0x15]);
    assert_eq!(size, 21);
    assert_eq!(bytes, 1);
}

#[test]
fn parse_descriptor_size_multi_byte() {
    // 0x80 | 0x01 = continuation, then 0x00 = 0x80 = 128
    let (size, bytes) = parse_descriptor_size(&[0x81, 0x00]);
    assert_eq!(size, 128);
    assert_eq!(bytes, 2);
}
