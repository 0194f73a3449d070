use edgepack::media::cmaf::box_size;
use edgepack::media::transmux::{AudioConfig, VideoConfig, build_avcc_box, build_esds_box, convert_annexb_to_avcc, extract_audio_config, extract_h264_nal_units, extract_video_config, has_idr_nal, strip_adts_headers, synthesize_init_segment, transmux_to_cmaf};
use edgepack::media::ts::{DemuxedSegment, PesPacket, TsCodec};

/// Build a minimal H.264 Annex B stream with SPS + PPS + IDR.
fn build_test_annexb_stream() -> Vec<u8> {
    let mut data = Vec::new();

    // SPS (NAL type 7): Baseline profile, level 3.1, 1920x1080
    // This is a simplified SPS — just enough for the parser
    data.extend_from_slice(&[0x00, 0x00, 0x00, 0x01]); // Start code
    data.extend_from_slice(&[
        0x67, // NAL type 7 (SPS) + nal_ref_idc
        0x42, // profile_idc = 66 (Baseline)
        0xC0, // constraint_set0_flag=1, others=0
        0x1F, // level_idc = 31
        0xE9, // seq_parameter_set_id=0, log2_max_frame_num=4 (encoded)
        0x40, 0x10, 0x18, 0x60, // pic_order_cnt etc
    ]);

    // PPS (NAL type 8)
    data.extend_from_slice(&[0x00, 0x00, 0x00, 0x01]);
    data.extend_from_slice(&[0x68, 0xCE, 0x38, 0x80]);

    // IDR slice (NAL type 5)
    data.extend_from_slice(&[0x00, 0x00, 0x00, 0x01]);
    data.extend_from_slice(&[0x65, 0x88, 0x84, 0x00, 0x33]);

    data
}

/// Build a minimal ADTS AAC frame.
fn build_test_adts_frame() -> Vec<u8> {
    // ADTS header (7 bytes): syncword=FFF, ID=0, layer=00, protection=1, profile=LC(1),
    // freq_index=4(44100), private=0, channel=2, frame_length=10
    let frame_len = 10u16; // 7 header + 3 data bytes
    vec![
        0xFF,
        0xF1, // syncword + ID=0 + layer=00 + protection=1
        0x50, // profile=LC(01), freq_index=0100=44100
        0x80 | ((frame_len >> 11) as u8 & 0x03), // channel_config upper + frame_length upper
        ((frame_len >> 3) & 0xFF) as u8,
        ((frame_len & 0x07) << 5) as u8 | 0x1F, // frame_length lower + buffer fullness
        0xFC, // buffer fullness + number_of_raw_data_blocks=0
        0xDE, 0xAD, 0xBE, // raw AAC data
    ]
}

#[test]
fn extract_h264_nals_basic() {
    let data = build_test_annexb_stream();
    let nals = extract_h264_nal_units(&data);
    assert!(nals.len() >= 3);
    // SPS
    assert_eq!(nals[0].0, 7);
    // PPS
    assert_eq!(nals[1].0, 8);
    // IDR
    assert_eq!(nals[2].0, 5);
}

#[test]
fn extract_h264_nals_empty() {
    let nals = extract_h264_nal_units(&[]);
    assert!(nals.is_empty());
}

#[test]
fn convert_annexb_to_avcc_strips_sps_pps() {
    let data = build_test_annexb_stream();
    let avcc = convert_annexb_to_avcc(&data);
    // AVCC should contain only the IDR slice (length-prefixed)
    assert!(avcc.len() >= 4);
    let nal_len = u32::from_be_bytes([avcc[0], avcc[1], avcc[2], avcc[3]]) as usize;
    assert_eq!(nal_len + 4, avcc.len());
    // First NAL byte should be IDR type
    assert_eq!(avcc[4] & 0x1F, 5);
}

#[test]
fn build_avcc_box_structure() {
    let sps = vec![0x67, 0x42, 0xC0, 0x1F, 0xE9];
    let pps = vec![0x68, 0xCE, 0x38, 0x80];
    let avcc = build_avcc_box(&sps, &pps, 0x42, 0x1F);

    // Should be a valid box: size(4) + "avcC"(4) + payload
    assert!(avcc.len() > 8);
    let box_size = u32::from_be_bytes([avcc[0], avcc[1], avcc[2], avcc[3]]) as usize;
    assert_eq!(box_size, avcc.len());
    assert_eq!(&avcc[4..8], b"avcC");
    // Check configurationVersion
    assert_eq!(avcc[8], 1);
    // Check profile
    assert_eq!(avcc[9], 0x42);
    // Check level
    assert_eq!(avcc[11], 0x1F);
}

#[test]
fn build_esds_box_structure() {
    let esds = build_esds_box(2, 44100, 2);
    assert!(esds.len() > 12);
    let box_size = u32::from_be_bytes([esds[0], esds[1], esds[2], esds[3]]) as usize;
    assert_eq!(box_size, esds.len());
    assert_eq!(&esds[4..8], b"esds");
}

#[test]
fn extract_video_config_from_pes() {
    let pes = PesPacket {
        stream_id: 0xE0,
        pts: Some(90000),
        dts: None,
        data: build_test_annexb_stream(),
    };
    let config = extract_video_config(&pes).unwrap();
    assert_eq!(config.codec, TsCodec::H264);
    assert!(!config.sps.is_empty());
    assert!(!config.pps.is_empty());
    assert_eq!(config.profile_idc, 0x42);
    assert_eq!(config.level_idc, 0x1F);
    assert!(config.codec_string.starts_with("avc1."));
}

#[test]
fn extract_video_config_no_sps() {
    let pes = PesPacket {
        stream_id: 0xE0,
        pts: Some(90000),
        dts: None,
        data: vec![0x00, 0x00, 0x00, 0x01, 0x65, 0xAA], // Only IDR, no SPS
    };
    let result = extract_video_config(&pes);
    assert!(result.is_err());
}

#[test]
fn extract_audio_config_from_adts() {
    let pes = PesPacket {
        stream_id: 0xC0,
        pts: Some(90000),
        dts: None,
        data: build_test_adts_frame(),
    };
    let config = extract_audio_config(&pes).unwrap();
    assert_eq!(config.codec, TsCodec::Aac);
    assert_eq!(config.sample_rate, 44100);
    assert_eq!(config.channel_count, 2);
    assert_eq!(config.aac_profile, 2); // AAC-LC
    assert_eq!(config.codec_string, "mp4a.40.2");
}

#[test]
fn extract_audio_config_too_short() {
    let pes = PesPacket {
        stream_id: 0xC0,
        pts: None,
        dts: None,
        data: vec![0xFF, 0xF1, 0x50], // Only 3 bytes, need 7
    };
    let result = extract_audio_config(&pes);
    assert!(result.is_err());
}

#[test]
fn synthesize_init_segment_video_only() {
    let video_config = VideoConfig {
        codec: TsCodec::H264,
        width: 1920,
        height: 1080,
        sps: vec![0x67, 0x42, 0xC0, 0x1F, 0xE9],
        pps: vec![0x68, 0xCE, 0x38, 0x80],
        profile_idc: 0x42,
        level_idc: 0x1F,
        codec_string: "avc1.42c01f".to_string(),
    };

    let init = synthesize_init_segment(Some(&video_config), None).unwrap();
    assert!(!init.is_empty());

    // Verify ftyp box
    let ftyp_size = u32::from_be_bytes([init[0], init[1], init[2], init[3]]) as usize;
    assert_eq!(&init[4..8], b"ftyp");

    // Verify moov box follows
    let moov_offset = ftyp_size;
    assert_eq!(&init[moov_offset + 4..moov_offset + 8], b"moov");
}

#[test]
fn synthesize_init_segment_audio_only() {
    let audio_config = AudioConfig {
        codec: TsCodec::Aac,
        sample_rate: 44100,
        channel_count: 2,
        aac_profile: 2,
        codec_string: "mp4a.40.2".to_string(),
    };

    let init = synthesize_init_segment(None, Some(&audio_config)).unwrap();
    assert!(!init.is_empty());
}

#[test]
fn synthesize_init_segment_no_config_errors() {
    let result = synthesize_init_segment(None, None);
    assert!(result.is_err());
}

#[test]
fn synthesize_init_segment_video_and_audio() {
    let video_config = VideoConfig {
        codec: TsCodec::H264,
        width: 1280,
        height: 720,
        sps: vec![0x67, 0x42, 0xC0, 0x1E],
        pps: vec![0x68, 0xCE, 0x38, 0x80],
        profile_idc: 0x42,
        level_idc: 0x1E,
        codec_string: "avc1.42c01e".to_string(),
    };
    let audio_config = AudioConfig {
        codec: TsCodec::Aac,
        sample_rate: 48000,
        channel_count: 2,
        aac_profile: 2,
        codec_string: "mp4a.40.2".to_string(),
    };

    let init = synthesize_init_segment(Some(&video_config), Some(&audio_config)).unwrap();
    assert!(!init.is_empty());
}

#[test]
fn transmux_video_to_cmaf() {
    let video_config = VideoConfig {
        codec: TsCodec::H264,
        width: 1920,
        height: 1080,
        sps: vec![0x67, 0x42, 0xC0, 0x1F, 0xE9],
        pps: vec![0x68, 0xCE, 0x38, 0x80],
        profile_idc: 0x42,
        level_idc: 0x1F,
        codec_string: "avc1.42c01f".to_string(),
    };

    let segment = DemuxedSegment {
        video_packets: vec![PesPacket {
            stream_id: 0xE0,
            pts: Some(90000),
            dts: Some(90000),
            data: build_test_annexb_stream(),
        }],
        audio_packets: vec![],
        video_codec: Some(TsCodec::H264),
        audio_codec: None,
        pmt: None,
    };

    let result = transmux_to_cmaf(&segment, Some(&video_config), None, 1).unwrap();
    assert!(!result.is_empty());

    // Verify moof box present
    let moof_size = u32::from_be_bytes([result[0], result[1], result[2], result[3]]) as usize;
    assert_eq!(&result[4..8], b"moof");

    // Verify mdat box follows
    assert_eq!(&result[moof_size + 4..moof_size + 8], b"mdat");
}

#[test]
fn transmux_empty_segment_errors() {
    let segment = DemuxedSegment {
        video_packets: vec![],
        audio_packets: vec![],
        video_codec: None,
        audio_codec: None,
        pmt: None,
    };
    let result = transmux_to_cmaf(&segment, None, None, 1);
    assert!(result.is_err());
}

#[test]
fn strip_adts_headers_basic() {
    let frame = build_test_adts_frame();
    let raw = strip_adts_headers(&frame);
    // Should strip 7-byte header, keeping 3 bytes of data
    assert_eq!(raw, vec![0xDE, 0xAD, 0xBE]);
}

#[test]
fn strip_adts_headers_empty() {
    let raw = strip_adts_headers(&[]);
    assert!(raw.is_empty());
}

#[test]
fn has_idr_nal_true() {
    let data = build_test_annexb_stream();
    assert!(has_idr_nal(&data));
}

#[test]
fn has_idr_nal_false() {
    // Only SPS + PPS, no IDR
    let mut data = Vec::new();
    data.extend_from_slice(&[0x00, 0x00, 0x00, 0x01, 0x67, 0x42]); // SPS
    data.extend_from_slice(&[0x00, 0x00, 0x00, 0x01, 0x68, 0xCE]); // PPS
    assert!(!has_idr_nal(&data));
}
