use aes::Aes128;
use cbc::cipher::{BlockEncryptMut, KeyIvInit};
use edgepack::media::ts::{PAT_PID, TS_PACKET_SIZE, TS_SYNC_BYTE, TsCodec, decrypt_ts_segment, demux_segment, parse_adaptation_field, parse_pat, parse_pes_header, parse_pmt, parse_ts_packet};

#[test]
fn ts_codec_from_stream_type_h264() {
    assert_eq!(TsCodec::from_stream_type(0x1B), TsCodec::H264);
}

#[test]
fn ts_codec_from_stream_type_h265() {
    assert_eq!(TsCodec::from_stream_type(0x24), TsCodec::H265);
}

#[test]
fn ts_codec_from_stream_type_aac() {
    assert_eq!(TsCodec::from_stream_type(0x0F), TsCodec::Aac);
}

#[test]
fn ts_codec_from_stream_type_ac3() {
    assert_eq!(TsCodec::from_stream_type(0x81), TsCodec::Ac3);
}

#[test]
fn ts_codec_from_stream_type_unknown() {
    assert_eq!(TsCodec::from_stream_type(0x42), TsCodec::Unknown(0x42));
}

#[test]
fn ts_codec_is_video() {
    assert!(TsCodec::H264.is_video());
    assert!(TsCodec::H265.is_video());
    assert!(!TsCodec::Aac.is_video());
    assert!(!TsCodec::Ac3.is_video());
    assert!(!TsCodec::Unknown(0x42).is_video());
}

#[test]
fn ts_codec_is_audio() {
    assert!(TsCodec::Aac.is_audio());
    assert!(TsCodec::Ac3.is_audio());
    assert!(!TsCodec::H264.is_audio());
    assert!(!TsCodec::H265.is_audio());
    assert!(!TsCodec::Unknown(0x42).is_audio());
}

/// Build a minimal 188-byte TS packet for testing.
fn build_test_ts_packet(pid: u16, pusi: bool, cc: u8, payload: &[u8]) -> Vec<u8> {
    let mut pkt = vec![0u8; TS_PACKET_SIZE];
    pkt[0] = TS_SYNC_BYTE;
    pkt[1] = ((pid >> 8) as u8 & 0x1F) | if pusi { 0x40 } else { 0x00 };
    pkt[2] = (pid & 0xFF) as u8;
    // adaptation_field_control = 01 (payload only), continuity_counter
    pkt[3] = 0x10 | (cc & 0x0F);
    let copy_len = payload.len().min(TS_PACKET_SIZE - 4);
    pkt[4..4 + copy_len].copy_from_slice(&payload[..copy_len]);
    pkt
}

/// Build a PAT payload (with pointer_field = 0).
fn build_pat_payload(pmt_pid: u16) -> Vec<u8> {
    let mut payload = Vec::new();
    payload.push(0x00); // pointer_field
    payload.push(0x00); // table_id = 0x00 (PAT)
    // section_syntax_indicator(1) + '0'(1) + reserved(2) + section_length(12)
    // section_length = 5 (header after length) + 4 (one program entry) + 4 (CRC)
    let section_length: u16 = 5 + 4 + 4;
    payload.push(0xB0 | ((section_length >> 8) as u8 & 0x0F));
    payload.push((section_length & 0xFF) as u8);
    payload.extend_from_slice(&[0x00, 0x01]); // transport_stream_id
    payload.push(0xC1); // version=0, current=1
    payload.push(0x00); // section_number
    payload.push(0x00); // last_section_number
    // Program entry: program_number=1, PMT PID
    payload.extend_from_slice(&[0x00, 0x01]); // program_number = 1
    payload.push(0xE0 | ((pmt_pid >> 8) as u8 & 0x1F));
    payload.push((pmt_pid & 0xFF) as u8);
    // CRC32 (placeholder — not verified in our parser)
    payload.extend_from_slice(&[0x00, 0x00, 0x00, 0x00]);
    payload
}

/// Build a PMT payload (with pointer_field = 0).
fn build_pmt_payload(video_pid: u16, audio_pid: u16) -> Vec<u8> {
    let mut payload = Vec::new();
    payload.push(0x00); // pointer_field
    payload.push(0x02); // table_id = 0x02 (PMT)
    // section_length = 5 (header after length) + 4 (PCR + prog_info_len) +
    //                  5 (video stream) + 5 (audio stream) + 4 (CRC)
    let section_length: u16 = 5 + 4 + 5 + 5 + 4;
    payload.push(0xB0 | ((section_length >> 8) as u8 & 0x0F));
    payload.push((section_length & 0xFF) as u8);
    payload.extend_from_slice(&[0x00, 0x01]); // program_number
    payload.push(0xC1); // version=0, current=1
    payload.push(0x00); // section_number
    payload.push(0x00); // last_section_number
    // PCR PID = video_pid
    payload.push(0xE0 | ((video_pid >> 8) as u8 & 0x1F));
    payload.push((video_pid & 0xFF) as u8);
    // program_info_length = 0
    payload.extend_from_slice(&[0xF0, 0x00]);
    // Video stream: H.264 (0x1B)
    payload.push(0x1B);
    payload.push(0xE0 | ((video_pid >> 8) as u8 & 0x1F));
    payload.push((video_pid & 0xFF) as u8);
    payload.extend_from_slice(&[0xF0, 0x00]); // ES_info_length = 0
    // Audio stream: AAC (0x0F)
    payload.push(0x0F);
    payload.push(0xE0 | ((audio_pid >> 8) as u8 & 0x1F));
    payload.push((audio_pid & 0xFF) as u8);
    payload.extend_from_slice(&[0xF0, 0x00]); // ES_info_length = 0
    // CRC32 (placeholder)
    payload.extend_from_slice(&[0x00, 0x00, 0x00, 0x00]);
    payload
}

/// Build a minimal PES packet with PTS.
fn build_pes_packet(stream_id: u8, pts: u64, data: &[u8]) -> Vec<u8> {
    let mut pes = Vec::new();
    // Start code: 00 00 01
    pes.extend_from_slice(&[0x00, 0x00, 0x01]);
    pes.push(stream_id);
    // PES packet length (0 for video = unbounded)
    let pes_data_len = 3 + 5 + data.len(); // header fields + PTS + data
    if stream_id >= 0xC0 && stream_id <= 0xDF {
        // Audio: set length
        pes.extend_from_slice(&(pes_data_len as u16).to_be_bytes());
    } else {
        // Video: 0 = unbounded
        pes.extend_from_slice(&[0x00, 0x00]);
    }
    // Optional PES header: marker(2) + flags
    pes.push(0x80); // marker bits
    pes.push(0x80); // PTS only (pts_dts_flags = 10)
    pes.push(0x05); // PES header data length = 5 (PTS only)
    // Encode PTS (5 bytes)
    pes.push(0x21 | (((pts >> 30) as u8 & 0x07) << 1)); // '0010' + PTS[32..30] + '1'
    pes.push(((pts >> 22) & 0xFF) as u8);
    pes.push((((pts >> 15) & 0x7F) as u8) << 1 | 0x01);
    pes.push(((pts >> 7) & 0xFF) as u8);
    pes.push((((pts) & 0x7F) as u8) << 1 | 0x01);
    // ES data
    pes.extend_from_slice(data);
    pes
}

#[test]
fn parse_ts_packet_basic() {
    let payload = [0xAA; 184];
    let pkt = build_test_ts_packet(0x100, false, 3, &payload);
    let parsed = parse_ts_packet(&pkt).unwrap();
    assert_eq!(parsed.pid, 0x100);
    assert!(!parsed.pusi);
    assert_eq!(parsed.continuity_counter, 3);
    assert_eq!(parsed.payload.len(), 184);
    assert!(parsed.adaptation_field.is_none());
}

#[test]
fn parse_ts_packet_with_pusi() {
    let pkt = build_test_ts_packet(0x200, true, 0, &[0xBB; 184]);
    let parsed = parse_ts_packet(&pkt).unwrap();
    assert_eq!(parsed.pid, 0x200);
    assert!(parsed.pusi);
}

#[test]
fn parse_ts_packet_invalid_sync_byte() {
    let mut pkt = build_test_ts_packet(0x100, false, 0, &[]);
    pkt[0] = 0x00; // Invalid sync byte
    let result = parse_ts_packet(&pkt);
    assert!(result.is_err());
    assert!(result.unwrap_err().to_string().contains("sync byte"));
}

#[test]
fn parse_ts_packet_too_short() {
    let result = parse_ts_packet(&[0x47, 0x00]);
    assert!(result.is_err());
}

#[test]
fn parse_pat_basic() {
    let payload = build_pat_payload(0x100);
    let pat = parse_pat(&payload).unwrap();
    assert_eq!(pat.programs.len(), 1);
    assert_eq!(pat.programs[0], (1, 0x100));
}

#[test]
fn parse_pmt_basic() {
    let payload = build_pmt_payload(0x101, 0x102);
    let pmt = parse_pmt(&payload).unwrap();
    assert_eq!(pmt.pcr_pid, 0x101);
    assert_eq!(pmt.streams.len(), 2);
    assert_eq!(pmt.streams[0].stream_type, 0x1B); // H.264
    assert_eq!(pmt.streams[0].pid, 0x101);
    assert_eq!(pmt.streams[1].stream_type, 0x0F); // AAC
    assert_eq!(pmt.streams[1].pid, 0x102);
}

#[test]
fn parse_pes_header_with_pts() {
    let es_data = [0x00, 0x00, 0x00, 0x01, 0x65]; // H.264 IDR NAL
    let pes = build_pes_packet(0xE0, 90000, &es_data);
    let (stream_id, pts, dts, header_len) = parse_pes_header(&pes).unwrap();
    assert_eq!(stream_id, 0xE0);
    assert!(pts.is_some());
    assert_eq!(pts.unwrap(), 90000);
    assert!(dts.is_none());
    assert_eq!(header_len, 14); // 9 base + 5 PTS bytes
}

#[test]
fn parse_pes_header_invalid_start_code() {
    let data = [0x01, 0x02, 0x03, 0xE0, 0x00, 0x00, 0x00, 0x00, 0x00];
    let result = parse_pes_header(&data);
    assert!(result.is_err());
    assert!(result.unwrap_err().to_string().contains("start code"));
}

#[test]
fn demux_segment_basic() {
    let video_pid: u16 = 0x101;
    let audio_pid: u16 = 0x102;
    let pmt_pid: u16 = 0x100;

    let mut ts_data = Vec::new();

    // PAT packet
    let pat_payload = build_pat_payload(pmt_pid);
    ts_data.extend_from_slice(&build_test_ts_packet(PAT_PID, true, 0, &pat_payload));

    // PMT packet
    let pmt_payload = build_pmt_payload(video_pid, audio_pid);
    ts_data.extend_from_slice(&build_test_ts_packet(pmt_pid, true, 0, &pmt_payload));

    // Video PES packet
    let video_es = [0x00, 0x00, 0x00, 0x01, 0x65, 0xAA, 0xBB]; // H.264 IDR
    let video_pes = build_pes_packet(0xE0, 90000, &video_es);
    ts_data.extend_from_slice(&build_test_ts_packet(video_pid, true, 0, &video_pes));

    // Audio PES packet
    let audio_es = [0xFF, 0xF1, 0x50, 0x80, 0x02, 0x00, 0xFC]; // ADTS header
    let audio_pes = build_pes_packet(0xC0, 90000, &audio_es);
    ts_data.extend_from_slice(&build_test_ts_packet(audio_pid, true, 0, &audio_pes));

    let result = demux_segment(&ts_data).unwrap();
    assert_eq!(result.video_codec, Some(TsCodec::H264));
    assert_eq!(result.audio_codec, Some(TsCodec::Aac));
    assert_eq!(result.video_packets.len(), 1);
    assert_eq!(result.audio_packets.len(), 1);
    assert_eq!(result.video_packets[0].pts, Some(90000));
    assert_eq!(result.audio_packets[0].pts, Some(90000));
    // TS packets are 188 bytes; PES data includes trailing zero padding from the packet.
    assert!(result.video_packets[0].data.starts_with(&video_es));
    assert!(result.audio_packets[0].data.starts_with(&audio_es));
}

#[test]
fn demux_segment_multi_pes() {
    let video_pid: u16 = 0x101;
    let audio_pid: u16 = 0x102;
    let pmt_pid: u16 = 0x100;

    let mut ts_data = Vec::new();

    // PAT
    ts_data.extend_from_slice(&build_test_ts_packet(
        PAT_PID,
        true,
        0,
        &build_pat_payload(pmt_pid),
    ));

    // PMT
    ts_data.extend_from_slice(&build_test_ts_packet(
        pmt_pid,
        true,
        0,
        &build_pmt_payload(video_pid, audio_pid),
    ));

    // First video PES
    let video_es1 = [0x00, 0x00, 0x00, 0x01, 0x65, 0x11];
    let video_pes1 = build_pes_packet(0xE0, 90000, &video_es1);
    ts_data.extend_from_slice(&build_test_ts_packet(video_pid, true, 0, &video_pes1));

    // Second video PES (new PUSI)
    let video_es2 = [0x00, 0x00, 0x00, 0x01, 0x41, 0x22];
    let video_pes2 = build_pes_packet(0xE0, 93003, &video_es2);
    ts_data.extend_from_slice(&build_test_ts_packet(video_pid, true, 1, &video_pes2));

    let result = demux_segment(&ts_data).unwrap();
    assert_eq!(result.video_packets.len(), 2);
    assert_eq!(result.video_packets[0].pts, Some(90000));
    assert_eq!(result.video_packets[1].pts, Some(93003));
    // TS packets are 188 bytes; PES data includes trailing zero padding.
    assert!(result.video_packets[0].data.starts_with(&video_es1));
    assert!(result.video_packets[1].data.starts_with(&video_es2));
}

#[test]
fn demux_empty_segment() {
    let result = demux_segment(&[]).unwrap();
    assert!(result.video_packets.is_empty());
    assert!(result.audio_packets.is_empty());
    assert!(result.video_codec.is_none());
    assert!(result.audio_codec.is_none());
}

#[test]
fn demux_skips_non_sync_packets() {
    // Data that doesn't start with 0x47 should be skipped
    let data = vec![0x00; TS_PACKET_SIZE * 2];
    let result = demux_segment(&data).unwrap();
    assert!(result.video_packets.is_empty());
}

#[test]
fn decrypt_ts_segment_roundtrip() {
    type Aes128CbcEnc = cbc::Encryptor<Aes128>;

    let key: [u8; 16] = [0x01; 16];
    let iv: [u8; 16] = [0x02; 16];
    let plaintext = vec![0xAA; 48]; // 3 AES blocks

    // Encrypt with PKCS7 padding
    let mut to_encrypt = plaintext.clone();
    // Add PKCS7 padding manually
    let pad_len = 16 - (to_encrypt.len() % 16);
    to_encrypt.extend(vec![pad_len as u8; pad_len]);

    let len = to_encrypt.len();
    let encryptor = Aes128CbcEnc::new(&key.into(), &iv.into());
    let encrypted = encryptor
        .encrypt_padded_mut::<aes::cipher::block_padding::NoPadding>(&mut to_encrypt, len)
        .unwrap()
        .to_vec();

    let decrypted = decrypt_ts_segment(&encrypted, &key, &iv).unwrap();
    assert_eq!(decrypted, plaintext);
}

#[test]
fn decrypt_ts_segment_empty() {
    let key = [0u8; 16];
    let iv = [0u8; 16];
    let result = decrypt_ts_segment(&[], &key, &iv).unwrap();
    assert!(result.is_empty());
}

#[test]
fn decrypt_ts_segment_invalid_length() {
    let key = [0u8; 16];
    let iv = [0u8; 16];
    let result = decrypt_ts_segment(&[0x00; 17], &key, &iv);
    assert!(result.is_err());
}

#[test]
fn parse_adaptation_field_empty() {
    let af = parse_adaptation_field(&[]);
    assert_eq!(af.length, 0);
    assert!(!af.random_access_indicator);
    assert!(af.pcr.is_none());
}

#[test]
fn parse_adaptation_field_zero_length() {
    let af = parse_adaptation_field(&[0x00]);
    assert_eq!(af.length, 0);
    assert!(!af.random_access_indicator);
}

#[test]
fn parse_adaptation_field_with_random_access() {
    let data = [0x01, 0x40]; // length=1, random_access_indicator=1
    let af = parse_adaptation_field(&data);
    assert_eq!(af.length, 1);
    assert!(af.random_access_indicator);
    assert!(af.pcr.is_none());
}

#[test]
fn demuxed_segment_has_pmt() {
    let video_pid: u16 = 0x101;
    let audio_pid: u16 = 0x102;
    let pmt_pid: u16 = 0x100;

    let mut ts_data = Vec::new();
    ts_data.extend_from_slice(&build_test_ts_packet(
        PAT_PID,
        true,
        0,
        &build_pat_payload(pmt_pid),
    ));
    ts_data.extend_from_slice(&build_test_ts_packet(
        pmt_pid,
        true,
        0,
        &build_pmt_payload(video_pid, audio_pid),
    ));

    let result = demux_segment(&ts_data).unwrap();
    assert!(result.pmt.is_some());
    let pmt = result.pmt.unwrap();
    assert_eq!(pmt.streams.len(), 2);
}

#[test]
fn pat_payload_invalid_table_id() {
    let mut payload = build_pat_payload(0x100);
    payload[1] = 0xFF; // Invalid table_id
    let result = parse_pat(&payload);
    assert!(result.is_err());
}

#[test]
fn pmt_payload_invalid_table_id() {
    let mut payload = build_pmt_payload(0x101, 0x102);
    payload[1] = 0xFF; // Invalid table_id
    let result = parse_pmt(&payload);
    assert!(result.is_err());
}
