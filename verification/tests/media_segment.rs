use edgepack::drm::ContentKey;
use edgepack::drm::scheme::EncryptionScheme;
use edgepack::media::cmaf::TrackRunBox;
use edgepack::media::cmaf;
use edgepack::media::segment::{SegmentRewriteParams, extract_sample_sizes, pad_iv_to_16, rebuild_mdat, rewrite_segment};

#[test]
fn pad_iv_to_16_from_8_bytes() {
    let iv = [0x01, 0x02, 0x03, 0x04, 0x05, 0x06, 0x07, 0x08];
    let padded = pad_iv_to_16(&iv);
    assert_eq!(padded.len(), 16);
    assert_eq!(&padded[..8], &[0u8; 8]);
    assert_eq!(&padded[8..], &iv);
}

#[test]
fn pad_iv_to_16_from_16_bytes() {
    let iv = [0xAA; 16];
    let padded = pad_iv_to_16(&iv);
    assert_eq!(padded, iv.to_vec());
}

#[test]
fn pad_iv_to_16_empty() {
    let padded = pad_iv_to_16(&[]);
    assert_eq!(padded, vec![0u8; 16]);
}

#[test]
fn pad_iv_to_16_single_byte() {
    let padded = pad_iv_to_16(&[0xFF]);
    assert_eq!(padded[15], 0xFF);
    assert_eq!(&padded[..15], &[0u8; 15]);
}

#[test]
fn extract_sample_sizes_all_present() {
    let trun = TrackRunBox {
        flags: 0x0200,
        sample_count: 2,
        data_offset: None,
        first_sample_flags: None,
        entries: vec![
            edgepack::media::cmaf::TrunEntry {
                sample_duration: None,
                sample_size: Some(100),
                sample_flags: None,
                sample_composition_time_offset: None,
            },
            edgepack::media::cmaf::TrunEntry {
                sample_duration: None,
                sample_size: Some(200),
                sample_flags: None,
                sample_composition_time_offset: None,
            },
        ],
    };
    let sizes = extract_sample_sizes(&trun).unwrap();
    assert_eq!(sizes, vec![100, 200]);
}

#[test]
fn extract_sample_sizes_missing_returns_error() {
    let trun = TrackRunBox {
        flags: 0,
        sample_count: 1,
        data_offset: None,
        first_sample_flags: None,
        entries: vec![edgepack::media::cmaf::TrunEntry {
            sample_duration: None,
            sample_size: None,
            sample_flags: None,
            sample_composition_time_offset: None,
        }],
    };
    let result = extract_sample_sizes(&trun);
    assert!(result.is_err());
    assert!(result.unwrap_err().to_string().contains("sample_size"));
}

#[test]
fn rebuild_mdat_produces_valid_box() {
    let payload = vec![0xDE, 0xAD, 0xBE, 0xEF];
    let mdat = rebuild_mdat(&payload);
    // Header: 4 bytes size + 4 bytes type + payload
    assert_eq!(mdat.len(), 8 + 4);
    assert_eq!(&mdat[4..8], b"mdat");
    assert_eq!(&mdat[8..], &payload);
    let size = u32::from_be_bytes([mdat[0], mdat[1], mdat[2], mdat[3]]);
    assert_eq!(size, 12);
}

#[test]
fn rebuild_mdat_empty_payload() {
    let mdat = rebuild_mdat(&[]);
    assert_eq!(mdat.len(), 8);
    assert_eq!(&mdat[4..8], b"mdat");
}

#[test]
fn segment_rewrite_params_construction() {
    let params = SegmentRewriteParams {
        source_key: Some(ContentKey {
            kid: [0x01; 16],
            key: vec![0xAA; 16],
            iv: None,
        }),
        target_key: Some(ContentKey {
            kid: [0x02; 16],
            key: vec![0xBB; 16],
            iv: None,
        }),
        source_scheme: EncryptionScheme::Cbcs,
        target_scheme: EncryptionScheme::Cenc,
        source_iv_size: 8,
        target_iv_size: 8,
        source_pattern: (1, 9),
        target_pattern: (0, 0),
        constant_iv: None,
        segment_number: 42,
    };
    assert_eq!(params.source_scheme, EncryptionScheme::Cbcs);
    assert_eq!(params.target_scheme, EncryptionScheme::Cenc);
    assert_eq!(params.source_iv_size, 8);
    assert_eq!(params.target_iv_size, 8);
    assert_eq!(params.source_pattern, (1, 9));
    assert_eq!(params.target_pattern, (0, 0));
    assert_eq!(params.segment_number, 42);
}

#[test]
fn rewrite_segment_missing_moof_returns_error() {
    // Only mdat, no moof
    let mut data = Vec::new();
    cmaf::write_box_header(&mut data, 12, b"mdat");
    data.extend_from_slice(&[0u8; 4]);

    let params = SegmentRewriteParams {
        source_key: Some(ContentKey { kid: [0; 16], key: vec![0; 16], iv: None }),
        target_key: Some(ContentKey { kid: [0; 16], key: vec![0; 16], iv: None }),
        source_scheme: EncryptionScheme::Cbcs,
        target_scheme: EncryptionScheme::Cenc,
        source_iv_size: 8,
        target_iv_size: 8,
        source_pattern: (0, 0),
        target_pattern: (0, 0),
        constant_iv: None,
        segment_number: 0,
    };
    let result = rewrite_segment(&data, &params);
    assert!(result.is_err());
    assert!(result.unwrap_err().to_string().contains("no moof"));
}

#[test]
fn rewrite_segment_missing_mdat_returns_error() {
    // Only moof (with no senc/trun inside, but the mdat check comes first)
    let mut data = Vec::new();
    cmaf::write_box_header(&mut data, 12, b"moof");
    data.extend_from_slice(&[0u8; 4]);

    let params = SegmentRewriteParams {
        source_key: Some(ContentKey { kid: [0; 16], key: vec![0; 16], iv: None }),
        target_key: Some(ContentKey { kid: [0; 16], key: vec![0; 16], iv: None }),
        source_scheme: EncryptionScheme::Cbcs,
        target_scheme: EncryptionScheme::Cenc,
        source_iv_size: 8,
        target_iv_size: 8,
        source_pattern: (0, 0),
        target_pattern: (0, 0),
        constant_iv: None,
        segment_number: 0,
    };
    let result = rewrite_segment(&data, &params);
    assert!(result.is_err());
    assert!(result.unwrap_err().to_string().contains("no mdat"));
}

/// Build a minimal clear segment: moof { traf { tfhd, trun } } + mdat
fn build_clear_segment(sample_sizes: &[u32]) -> Vec<u8> {
    let mut data = Vec::new();

    // Build trun
    let trun_flags: u32 = 0x000201; // data_offset_present | sample_size_present
    let mut trun_payload = Vec::new();
    trun_payload.push(0); // version
    trun_payload.extend_from_slice(&trun_flags.to_be_bytes()[1..4]);
    trun_payload.extend_from_slice(&(sample_sizes.len() as u32).to_be_bytes());
    trun_payload.extend_from_slice(&0i32.to_be_bytes()); // data_offset (placeholder)
    for &size in sample_sizes {
        trun_payload.extend_from_slice(&size.to_be_bytes());
    }
    let trun_size = 8 + trun_payload.len() as u32;
    let mut trun = Vec::new();
    cmaf::write_box_header(&mut trun, trun_size, b"trun");
    trun.extend_from_slice(&trun_payload);

    // Build tfhd (minimal)
    let mut tfhd = Vec::new();
    cmaf::write_box_header(&mut tfhd, 16, b"tfhd");
    tfhd.extend_from_slice(&[0u8; 4]); // version + flags
    tfhd.extend_from_slice(&1u32.to_be_bytes()); // track_id

    // traf { tfhd, trun }
    let traf_size = 8 + tfhd.len() as u32 + trun.len() as u32;
    let mut traf = Vec::new();
    cmaf::write_box_header(&mut traf, traf_size, b"traf");
    traf.extend_from_slice(&tfhd);
    traf.extend_from_slice(&trun);

    // moof { traf }
    let moof_size = 8 + traf.len() as u32;
    cmaf::write_box_header(&mut data, moof_size, b"moof");
    data.extend_from_slice(&traf);

    // mdat with sample data
    let total_mdat_payload: usize = sample_sizes.iter().map(|&s| s as usize).sum();
    let mdat_payload: Vec<u8> = (0..total_mdat_payload).map(|i| (i % 256) as u8).collect();
    let mdat_size = 8 + mdat_payload.len() as u32;
    cmaf::write_box_header(&mut data, mdat_size, b"mdat");
    data.extend_from_slice(&mdat_payload);

    data
}

#[test]
fn clear_to_clear_passthrough() {
    let segment = build_clear_segment(&[64, 32]);
    let params = SegmentRewriteParams {
        source_key: None,
        target_key: None,
        source_scheme: EncryptionScheme::Clear,
        target_scheme: EncryptionScheme::Clear,
        source_iv_size: 0,
        target_iv_size: 0,
        source_pattern: (0, 0),
        target_pattern: (0, 0),
        constant_iv: None,
        segment_number: 0,
    };
    let result = rewrite_segment(&segment, &params).unwrap();
    assert_eq!(result, segment); // byte-for-byte identical
}

#[test]
fn clear_to_encrypted_injects_senc() {
    let segment = build_clear_segment(&[48, 48]);
    let params = SegmentRewriteParams {
        source_key: None,
        target_key: Some(ContentKey { kid: [0x01; 16], key: vec![0xAA; 16], iv: None }),
        source_scheme: EncryptionScheme::Clear,
        target_scheme: EncryptionScheme::Cenc,
        source_iv_size: 0,
        target_iv_size: 8,
        source_pattern: (0, 0),
        target_pattern: (0, 0),
        constant_iv: None,
        segment_number: 0,
    };
    let result = rewrite_segment(&segment, &params).unwrap();
    // Result should contain senc box
    assert!(result.windows(4).any(|w| w == b"senc"));
    // mdat should be different (encrypted)
    assert_ne!(result, segment);
}

#[test]
fn clear_to_encrypted_then_decrypt_roundtrip() {
    let segment = build_clear_segment(&[48]);
    let key = ContentKey { kid: [0x01; 16], key: vec![0xAA; 16], iv: None };

    // Clear → Encrypted
    let encrypted = rewrite_segment(&segment, &SegmentRewriteParams {
        source_key: None,
        target_key: Some(key.clone()),
        source_scheme: EncryptionScheme::Clear,
        target_scheme: EncryptionScheme::Cenc,
        source_iv_size: 0,
        target_iv_size: 8,
        source_pattern: (0, 0),
        target_pattern: (0, 0),
        constant_iv: None,
        segment_number: 0,
    }).unwrap();

    // Encrypted → Clear
    let decrypted = rewrite_segment(&encrypted, &SegmentRewriteParams {
        source_key: Some(key),
        target_key: None,
        source_scheme: EncryptionScheme::Cenc,
        target_scheme: EncryptionScheme::Clear,
        source_iv_size: 8,
        target_iv_size: 0,
        source_pattern: (0, 0),
        target_pattern: (0, 0),
        constant_iv: None,
        segment_number: 0,
    }).unwrap();

    // Extract mdat payloads from original and decrypted
    let orig_mdat_pos = segment.windows(4).position(|w| w == b"mdat").unwrap() - 4;
    let orig_mdat_size = u32::from_be_bytes([
        segment[orig_mdat_pos], segment[orig_mdat_pos + 1],
        segment[orig_mdat_pos + 2], segment[orig_mdat_pos + 3],
    ]) as usize;
    let orig_payload = &segment[orig_mdat_pos + 8..orig_mdat_pos + orig_mdat_size];

    let dec_mdat_pos = decrypted.windows(4).position(|w| w == b"mdat").unwrap() - 4;
    let dec_mdat_size = u32::from_be_bytes([
        decrypted[dec_mdat_pos], decrypted[dec_mdat_pos + 1],
        decrypted[dec_mdat_pos + 2], decrypted[dec_mdat_pos + 3],
    ]) as usize;
    let dec_payload = &decrypted[dec_mdat_pos + 8..dec_mdat_pos + dec_mdat_size];

    assert_eq!(orig_payload, dec_payload, "mdat payload should match after roundtrip");
}

#[test]
fn encrypted_to_clear_strips_senc() {
    let segment = build_clear_segment(&[48]);
    let key = ContentKey { kid: [0x01; 16], key: vec![0xAA; 16], iv: None };

    // First encrypt
    let encrypted = rewrite_segment(&segment, &SegmentRewriteParams {
        source_key: None,
        target_key: Some(key.clone()),
        source_scheme: EncryptionScheme::Clear,
        target_scheme: EncryptionScheme::Cenc,
        source_iv_size: 0,
        target_iv_size: 8,
        source_pattern: (0, 0),
        target_pattern: (0, 0),
        constant_iv: None,
        segment_number: 0,
    }).unwrap();
    assert!(encrypted.windows(4).any(|w| w == b"senc"));

    // Then decrypt to clear
    let clear = rewrite_segment(&encrypted, &SegmentRewriteParams {
        source_key: Some(key),
        target_key: None,
        source_scheme: EncryptionScheme::Cenc,
        target_scheme: EncryptionScheme::Clear,
        source_iv_size: 8,
        target_iv_size: 0,
        source_pattern: (0, 0),
        target_pattern: (0, 0),
        constant_iv: None,
        segment_number: 0,
    }).unwrap();

    // senc should be removed
    assert!(!clear.windows(4).any(|w| w == b"senc"));
}

#[test]
fn clear_to_encrypted_missing_target_key_errors() {
    let segment = build_clear_segment(&[48]);
    let result = rewrite_segment(&segment, &SegmentRewriteParams {
        source_key: None,
        target_key: None, // Missing!
        source_scheme: EncryptionScheme::Clear,
        target_scheme: EncryptionScheme::Cenc,
        source_iv_size: 0,
        target_iv_size: 8,
        source_pattern: (0, 0),
        target_pattern: (0, 0),
        constant_iv: None,
        segment_number: 0,
    });
    assert!(result.is_err());
    assert!(result.unwrap_err().to_string().contains("target_key"));
}
