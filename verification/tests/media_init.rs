use edgepack::drm::scheme::EncryptionScheme;
use edgepack::drm::system_ids;
use edgepack::drm::{ContentKey, DrmKeySet, DrmSystemData};
use edgepack::media::cmaf;
use edgepack::media::codec::TrackKeyMapping;
use edgepack::media::container::ContainerFormat;
use edgepack::media::init::{build_pssh_boxes, build_schm, build_sinf, build_tenc, create_protection_info, encrypted_sample_entry_type, find_frma_in_sinf, is_encrypted_sample_entry, parse_protection_info, rewrite_ftyp_only, rewrite_init_segment, strip_protection_info};

fn make_key_set() -> DrmKeySet {
    DrmKeySet {
        keys: vec![ContentKey {
            kid: [0x01; 16],
            key: vec![0xAA; 16],
            iv: None,
        }],
        drm_systems: vec![
            DrmSystemData {
                system_id: system_ids::WIDEVINE,
                kid: [0x01; 16],
                pssh_data: vec![0x10, 0x20],
                content_protection_data: None,
            },
            DrmSystemData {
                system_id: system_ids::PLAYREADY,
                kid: [0x01; 16],
                pssh_data: vec![0x30, 0x40],
                content_protection_data: None,
            },
        ],
    }
}

fn make_key_mapping() -> TrackKeyMapping {
    TrackKeyMapping::single([0x01; 16])
}

#[test]
fn build_schm_cenc_produces_valid_box() {
    let schm = build_schm(EncryptionScheme::Cenc);
    assert_eq!(schm.len(), 20);
    assert_eq!(&schm[4..8], b"schm");
    assert_eq!(&schm[12..16], b"cenc");
    assert_eq!(&schm[16..20], &0x00010000u32.to_be_bytes());
}

#[test]
fn build_schm_cbcs_produces_valid_box() {
    let schm = build_schm(EncryptionScheme::Cbcs);
    assert_eq!(schm.len(), 20);
    assert_eq!(&schm[4..8], b"schm");
    assert_eq!(&schm[12..16], b"cbcs");
    assert_eq!(&schm[16..20], &0x00010000u32.to_be_bytes());
}

#[test]
fn build_tenc_cenc_produces_valid_box() {
    let kid = [0x01; 16];
    let tenc = build_tenc(&kid, 8, (0, 0));
    assert_eq!(&tenc[4..8], b"tenc");
    let version_flags_reserved_len = 4 + 1; // version(1)+flags(3)+reserved(1)
    let is_protected_offset = 8 + version_flags_reserved_len;
    assert_eq!(tenc[is_protected_offset], 1);
    assert_eq!(tenc[is_protected_offset + 1], 8);
    assert_eq!(&tenc[is_protected_offset + 2..is_protected_offset + 18], &[0x01; 16]);
    // Check pattern byte is 0 for CENC
    assert_eq!(tenc[8 + 4], 0x00);
}

#[test]
fn build_tenc_cbcs_produces_valid_box() {
    let kid = [0x03; 16];
    let tenc = build_tenc(&kid, 16, (1, 9));
    assert_eq!(&tenc[4..8], b"tenc");
    // Check pattern byte: crypt=1 (upper nibble), skip=9 (lower nibble) = 0x19
    assert_eq!(tenc[8 + 4], 0x19);
    let is_protected_offset = 8 + 5;
    assert_eq!(tenc[is_protected_offset], 1); // isProtected
    assert_eq!(tenc[is_protected_offset + 1], 16); // IV size
}

#[test]
fn build_tenc_cenc_iv_size_16() {
    let kid = [0x02; 16];
    let tenc = build_tenc(&kid, 16, (0, 0));
    let is_protected_offset = 8 + 5;
    assert_eq!(tenc[is_protected_offset + 1], 16);
}

#[test]
fn build_pssh_boxes_cenc_skips_fairplay() {
    let mut key_set = make_key_set();
    key_set.drm_systems.push(DrmSystemData {
        system_id: system_ids::FAIRPLAY,
        kid: [0x01; 16],
        pssh_data: vec![0xFF],
        content_protection_data: None,
    });
    let pssh_data = build_pssh_boxes(&key_set, &make_key_mapping(), EncryptionScheme::Cenc).unwrap();
    let mut pssh_count = 0;
    let mut pos = 0;
    while pos + 8 <= pssh_data.len() {
        if &pssh_data[pos + 4..pos + 8] == b"pssh" {
            pssh_count += 1;
            let size = u32::from_be_bytes([
                pssh_data[pos], pssh_data[pos + 1], pssh_data[pos + 2], pssh_data[pos + 3],
            ]) as usize;
            pos += size;
        } else {
            pos += 1;
        }
    }
    assert_eq!(pssh_count, 2); // Widevine + PlayReady only
}

#[test]
fn build_pssh_boxes_cbcs_includes_fairplay() {
    let mut key_set = make_key_set();
    key_set.drm_systems.push(DrmSystemData {
        system_id: system_ids::FAIRPLAY,
        kid: [0x01; 16],
        pssh_data: vec![0xFF],
        content_protection_data: None,
    });
    let pssh_data = build_pssh_boxes(&key_set, &make_key_mapping(), EncryptionScheme::Cbcs).unwrap();
    let mut pssh_count = 0;
    let mut pos = 0;
    while pos + 8 <= pssh_data.len() {
        if &pssh_data[pos + 4..pos + 8] == b"pssh" {
            pssh_count += 1;
            let size = u32::from_be_bytes([
                pssh_data[pos], pssh_data[pos + 1], pssh_data[pos + 2], pssh_data[pos + 3],
            ]) as usize;
            pos += size;
        } else {
            pos += 1;
        }
    }
    assert_eq!(pssh_count, 3); // Widevine + PlayReady + FairPlay
}

#[test]
fn build_pssh_boxes_includes_key_ids() {
    let key_set = make_key_set();
    let pssh_data = build_pssh_boxes(&key_set, &make_key_mapping(), EncryptionScheme::Cenc).unwrap();
    assert!(!pssh_data.is_empty());
    assert_eq!(&pssh_data[4..8], b"pssh");
}

#[test]
fn parse_protection_info_no_sinf_returns_none() {
    // ftyp box only — no sinf
    let mut data = Vec::new();
    cmaf::write_box_header(&mut data, 16, b"ftyp");
    data.extend_from_slice(b"isom\x00\x00\x00\x00"); // brand + version
    let result = parse_protection_info(&data).unwrap();
    assert!(result.is_none());
}

#[test]
fn parse_protection_info_empty_data_returns_none() {
    let result = parse_protection_info(&[]).unwrap();
    assert!(result.is_none());
}

#[test]
fn parse_protection_info_finds_sinf_with_tenc() {
    // Build a minimal init segment with a sinf box containing frma + schm + schi(tenc)
    let mut init_data = Vec::new();

    // ftyp
    cmaf::write_box_header(&mut init_data, 12, b"ftyp");
    init_data.extend_from_slice(b"isom");

    // Build sinf contents
    let mut sinf_children = Vec::new();

    // frma: original_format = "avc1"
    cmaf::write_box_header(&mut sinf_children, 12, b"frma");
    sinf_children.extend_from_slice(b"avc1");

    // schm: version(1)+flags(3)+scheme_type(4)+scheme_version(4) = full box
    let schm_size: u32 = 8 + 4 + 4 + 4;
    cmaf::write_box_header(&mut sinf_children, schm_size, b"schm");
    sinf_children.extend_from_slice(&[0; 4]); // version + flags
    sinf_children.extend_from_slice(b"cbcs");
    sinf_children.extend_from_slice(&0x00010000u32.to_be_bytes());

    // schi containing tenc
    // tenc: header(8) + version(1) + flags(3) + reserved/crypt_skip(1)
    //       + isProtected(1) + ivSize(1) + KID(16) = 31
    let tenc_size: u32 = 8 + 1 + 3 + 1 + 1 + 1 + 16;
    let mut tenc_data = Vec::new();
    cmaf::write_box_header(&mut tenc_data, tenc_size, b"tenc");
    tenc_data.push(0); // version
    tenc_data.extend_from_slice(&[0; 3]); // flags
    tenc_data.push(0x19); // crypt=1, skip=9
    tenc_data.push(1); // isProtected
    tenc_data.push(8); // ivSize
    tenc_data.extend_from_slice(&[0xAA; 16]); // KID

    let schi_size = 8 + tenc_data.len() as u32;
    cmaf::write_box_header(&mut sinf_children, schi_size, b"schi");
    sinf_children.extend_from_slice(&tenc_data);

    // Now wrap in sinf
    let sinf_size = 8 + sinf_children.len() as u32;
    cmaf::write_box_header(&mut init_data, sinf_size, b"sinf");
    init_data.extend_from_slice(&sinf_children);

    let result = parse_protection_info(&init_data).unwrap();
    assert!(result.is_some());
    let info = result.unwrap();
    assert_eq!(&info.original_format, b"avc1");
    assert_eq!(&info.scheme_type, b"cbcs");
}

#[test]
fn rewrite_init_segment_empty_data() {
    let key_set = make_key_set();
    let result = rewrite_init_segment(&[], &key_set, &make_key_mapping(), EncryptionScheme::Cenc, 8, (0, 0), ContainerFormat::default()).unwrap();
    assert!(result.is_empty());
}

#[test]
fn rewrite_init_segment_ftyp_only_passthrough() {
    let key_set = make_key_set();
    let mut data = Vec::new();
    cmaf::write_box_header(&mut data, 16, b"ftyp");
    data.extend_from_slice(b"isom\x00\x00\x02\x00");

    let result = rewrite_init_segment(&data, &key_set, &make_key_mapping(), EncryptionScheme::Cenc, 8, (0, 0), ContainerFormat::Cmaf).unwrap();
    assert_eq!(&result[4..8], b"ftyp");
    // ftyp is rewritten with container-format-specific brands
    let ftyp_size = u32::from_be_bytes([result[0], result[1], result[2], result[3]]) as usize;
    assert!(ftyp_size >= 16); // At least header + major_brand + minor_version
}

#[test]
fn rewrite_init_segment_ftyp_cmaf_has_cmfc_brand() {
    let key_set = make_key_set();
    let mut data = Vec::new();
    cmaf::write_box_header(&mut data, 16, b"ftyp");
    data.extend_from_slice(b"isom\x00\x00\x02\x00");

    let result = rewrite_init_segment(&data, &key_set, &make_key_mapping(), EncryptionScheme::Cenc, 8, (0, 0), ContainerFormat::Cmaf).unwrap();
    // CMAF ftyp should contain cmfc compatible brand
    assert!(result.windows(4).any(|w| w == b"cmfc"), "CMAF ftyp should contain cmfc brand");
}

#[test]
fn rewrite_init_segment_ftyp_fmp4_no_cmfc_brand() {
    let key_set = make_key_set();
    let mut data = Vec::new();
    cmaf::write_box_header(&mut data, 16, b"ftyp");
    data.extend_from_slice(b"isom\x00\x00\x02\x00");

    let result = rewrite_init_segment(&data, &key_set, &make_key_mapping(), EncryptionScheme::Cenc, 8, (0, 0), ContainerFormat::Fmp4).unwrap();
    assert_eq!(&result[4..8], b"ftyp");
    // fMP4 ftyp should NOT contain cmfc brand
    assert!(!result.windows(4).any(|w| w == b"cmfc"), "fMP4 ftyp should not contain cmfc brand");
}

#[test]
fn rewrite_init_segment_moov_adds_pssh() {
    let key_set = make_key_set();

    let mut mvhd_data = Vec::new();
    cmaf::write_box_header(&mut mvhd_data, 16, b"mvhd");
    mvhd_data.extend_from_slice(&[0u8; 8]);

    let moov_size = 8 + mvhd_data.len() as u32;
    let mut data = Vec::new();
    cmaf::write_box_header(&mut data, moov_size, b"moov");
    data.extend_from_slice(&mvhd_data);

    let result = rewrite_init_segment(&data, &key_set, &make_key_mapping(), EncryptionScheme::Cenc, 8, (0, 0), ContainerFormat::default()).unwrap();
    assert_eq!(&result[4..8], b"moov");
    let has_pssh = result.windows(4).any(|w| w == b"pssh");
    assert!(has_pssh);
}

#[test]
fn rewrite_init_segment_cbcs_target() {
    let key_set = make_key_set();

    let mut mvhd_data = Vec::new();
    cmaf::write_box_header(&mut mvhd_data, 16, b"mvhd");
    mvhd_data.extend_from_slice(&[0u8; 8]);

    let moov_size = 8 + mvhd_data.len() as u32;
    let mut data = Vec::new();
    cmaf::write_box_header(&mut data, moov_size, b"moov");
    data.extend_from_slice(&mvhd_data);

    let result = rewrite_init_segment(&data, &key_set, &make_key_mapping(), EncryptionScheme::Cbcs, 16, (1, 9), ContainerFormat::default()).unwrap();
    assert_eq!(&result[4..8], b"moov");
    let has_pssh = result.windows(4).any(|w| w == b"pssh");
    assert!(has_pssh);
}

// --- Helper: build a minimal clear init segment ---

/// Build a minimal clear init segment: ftyp + moov { trak { mdia { minf { stbl { stsd { avc1 } } } } } }
fn build_clear_init(codec: &[u8; 4]) -> Vec<u8> {
    let mut data = Vec::new();

    // ftyp
    cmaf::write_box_header(&mut data, 16, b"ftyp");
    data.extend_from_slice(b"isom\x00\x00\x02\x00");

    // Build sample entry: codec with 8 bytes of payload
    let entry_payload = [0u8; 8];
    let entry_size = 8 + entry_payload.len() as u32;
    let mut entry = Vec::new();
    cmaf::write_box_header(&mut entry, entry_size, codec);
    entry.extend_from_slice(&entry_payload);

    // stsd (full box): header(8) + version_flags(4) + entry_count(4) + entries
    let stsd_size = 8 + 4 + 4 + entry.len() as u32;
    let mut stsd = Vec::new();
    cmaf::write_box_header(&mut stsd, stsd_size, b"stsd");
    stsd.extend_from_slice(&[0u8; 4]); // version + flags
    stsd.extend_from_slice(&1u32.to_be_bytes()); // entry_count = 1
    stsd.extend_from_slice(&entry);

    // Nest: stbl { stsd }
    let stbl_size = 8 + stsd.len() as u32;
    let mut stbl = Vec::new();
    cmaf::write_box_header(&mut stbl, stbl_size, b"stbl");
    stbl.extend_from_slice(&stsd);

    // minf { stbl }
    let minf_size = 8 + stbl.len() as u32;
    let mut minf = Vec::new();
    cmaf::write_box_header(&mut minf, minf_size, b"minf");
    minf.extend_from_slice(&stbl);

    // mdia { minf }
    let mdia_size = 8 + minf.len() as u32;
    let mut mdia = Vec::new();
    cmaf::write_box_header(&mut mdia, mdia_size, b"mdia");
    mdia.extend_from_slice(&minf);

    // trak { mdia }
    let trak_size = 8 + mdia.len() as u32;
    let mut trak = Vec::new();
    cmaf::write_box_header(&mut trak, trak_size, b"trak");
    trak.extend_from_slice(&mdia);

    // moov { trak }
    let moov_size = 8 + trak.len() as u32;
    cmaf::write_box_header(&mut data, moov_size, b"moov");
    data.extend_from_slice(&trak);

    data
}

/// Build a minimal encrypted init segment: ftyp + moov { trak { mdia { minf { stbl { stsd { encv { sinf } } } } } }, pssh }
fn build_encrypted_init(encrypted_type: &[u8; 4], original_format: &[u8; 4]) -> Vec<u8> {
    let mut data = Vec::new();

    // ftyp
    cmaf::write_box_header(&mut data, 16, b"ftyp");
    data.extend_from_slice(b"isom\x00\x00\x02\x00");

    // Build sinf: frma + schm + schi { tenc }
    let sinf = build_sinf(original_format, EncryptionScheme::Cenc, &[0x01; 16], 8, (0, 0));

    // Sample entry: encrypted_type with 8 bytes of codec payload + sinf
    let entry_payload_base = [0u8; 8];
    let entry_size = 8 + entry_payload_base.len() as u32 + sinf.len() as u32;
    let mut entry = Vec::new();
    cmaf::write_box_header(&mut entry, entry_size, encrypted_type);
    entry.extend_from_slice(&entry_payload_base);
    entry.extend_from_slice(&sinf);

    // stsd (full box)
    let stsd_size = 8 + 4 + 4 + entry.len() as u32;
    let mut stsd = Vec::new();
    cmaf::write_box_header(&mut stsd, stsd_size, b"stsd");
    stsd.extend_from_slice(&[0u8; 4]);
    stsd.extend_from_slice(&1u32.to_be_bytes());
    stsd.extend_from_slice(&entry);

    // Nest: stbl { stsd }
    let stbl_size = 8 + stsd.len() as u32;
    let mut stbl = Vec::new();
    cmaf::write_box_header(&mut stbl, stbl_size, b"stbl");
    stbl.extend_from_slice(&stsd);

    let minf_size = 8 + stbl.len() as u32;
    let mut minf = Vec::new();
    cmaf::write_box_header(&mut minf, minf_size, b"minf");
    minf.extend_from_slice(&stbl);

    let mdia_size = 8 + minf.len() as u32;
    let mut mdia = Vec::new();
    cmaf::write_box_header(&mut mdia, mdia_size, b"mdia");
    mdia.extend_from_slice(&minf);

    let trak_size = 8 + mdia.len() as u32;
    let mut trak = Vec::new();
    cmaf::write_box_header(&mut trak, trak_size, b"trak");
    trak.extend_from_slice(&mdia);

    // PSSH box (minimal)
    let mut pssh = Vec::new();
    cmaf::write_box_header(&mut pssh, 20, b"pssh");
    pssh.extend_from_slice(&[0u8; 12]); // version + flags + system_id partial

    // moov { trak, pssh }
    let moov_size = 8 + trak.len() as u32 + pssh.len() as u32;
    cmaf::write_box_header(&mut data, moov_size, b"moov");
    data.extend_from_slice(&trak);
    data.extend_from_slice(&pssh);

    data
}

// --- Tests for new Phase 3 functions ---

#[test]
fn encrypted_sample_entry_type_video_codecs() {
    assert_eq!(encrypted_sample_entry_type(b"avc1"), Some(*b"encv"));
    assert_eq!(encrypted_sample_entry_type(b"avc3"), Some(*b"encv"));
    assert_eq!(encrypted_sample_entry_type(b"hvc1"), Some(*b"encv"));
    assert_eq!(encrypted_sample_entry_type(b"hev1"), Some(*b"encv"));
    assert_eq!(encrypted_sample_entry_type(b"vp09"), Some(*b"encv"));
    assert_eq!(encrypted_sample_entry_type(b"av01"), Some(*b"encv"));
}

#[test]
fn encrypted_sample_entry_type_audio_codecs() {
    assert_eq!(encrypted_sample_entry_type(b"mp4a"), Some(*b"enca"));
    assert_eq!(encrypted_sample_entry_type(b"ac-3"), Some(*b"enca"));
    assert_eq!(encrypted_sample_entry_type(b"ec-3"), Some(*b"enca"));
    assert_eq!(encrypted_sample_entry_type(b"Opus"), Some(*b"enca"));
    assert_eq!(encrypted_sample_entry_type(b"fLaC"), Some(*b"enca"));
}

#[test]
fn encrypted_sample_entry_type_unknown_returns_none() {
    assert_eq!(encrypted_sample_entry_type(b"encv"), None);
    assert_eq!(encrypted_sample_entry_type(b"enca"), None);
    assert_eq!(encrypted_sample_entry_type(b"abcd"), None);
}

#[test]
fn is_encrypted_sample_entry_recognizes_types() {
    assert!(is_encrypted_sample_entry(b"encv"));
    assert!(is_encrypted_sample_entry(b"enca"));
    assert!(is_encrypted_sample_entry(b"enct"));
    assert!(is_encrypted_sample_entry(b"encs"));
    assert!(!is_encrypted_sample_entry(b"avc1"));
    assert!(!is_encrypted_sample_entry(b"mp4a"));
}

#[test]
fn build_sinf_produces_valid_box() {
    let sinf = build_sinf(b"avc1", EncryptionScheme::Cenc, &[0x01; 16], 8, (0, 0));
    assert_eq!(&sinf[4..8], b"sinf");
    // Should contain frma, schm, schi
    assert!(sinf.windows(4).any(|w| w == b"frma"));
    assert!(sinf.windows(4).any(|w| w == b"schm"));
    assert!(sinf.windows(4).any(|w| w == b"schi"));
    assert!(sinf.windows(4).any(|w| w == b"tenc"));
    // frma should contain original format "avc1"
    let frma_pos = sinf.windows(4).position(|w| w == b"frma").unwrap();
    assert_eq!(&sinf[frma_pos + 4..frma_pos + 8], b"avc1");
}

#[test]
fn build_sinf_cbcs_has_pattern() {
    let sinf = build_sinf(b"mp4a", EncryptionScheme::Cbcs, &[0x02; 16], 16, (1, 9));
    assert!(sinf.windows(4).any(|w| w == b"cbcs"));
}

#[test]
fn find_frma_in_sinf_extracts_format() {
    // Build a sinf payload with frma box
    let mut sinf_payload = Vec::new();
    cmaf::write_box_header(&mut sinf_payload, 12, b"frma");
    sinf_payload.extend_from_slice(b"avc1");

    let result = find_frma_in_sinf(&sinf_payload);
    assert_eq!(result, Some(*b"avc1"));
}

#[test]
fn find_frma_in_sinf_returns_none_for_empty() {
    assert_eq!(find_frma_in_sinf(&[]), None);
}

#[test]
fn rewrite_ftyp_only_preserves_moov() {
    let init = build_clear_init(b"avc1");
    let result = rewrite_ftyp_only(&init, ContainerFormat::Cmaf).unwrap();
    // Should have ftyp and moov
    assert!(result.windows(4).any(|w| w == b"ftyp"));
    assert!(result.windows(4).any(|w| w == b"moov"));
    // Moov content should be the same (stsd with avc1)
    assert!(result.windows(4).any(|w| w == b"avc1"));
    // Should NOT have sinf or pssh (clear content stays clear)
    assert!(!result.windows(4).any(|w| w == b"sinf"));
    assert!(!result.windows(4).any(|w| w == b"pssh"));
}

#[test]
fn rewrite_ftyp_only_cmaf_has_cmfc() {
    let init = build_clear_init(b"avc1");
    let result = rewrite_ftyp_only(&init, ContainerFormat::Cmaf).unwrap();
    assert!(result.windows(4).any(|w| w == b"cmfc"));
}

#[test]
fn create_protection_info_injects_sinf_and_pssh() {
    let init = build_clear_init(b"avc1");
    let key_set = make_key_set();
    let result = create_protection_info(
        &init, &key_set, &make_key_mapping(), EncryptionScheme::Cenc, 8, (0, 0), ContainerFormat::Cmaf,
    ).unwrap();

    // Should have sinf injected
    assert!(result.windows(4).any(|w| w == b"sinf"));
    assert!(result.windows(4).any(|w| w == b"frma"));
    assert!(result.windows(4).any(|w| w == b"schm"));
    assert!(result.windows(4).any(|w| w == b"tenc"));
    // Should have PSSH boxes
    assert!(result.windows(4).any(|w| w == b"pssh"));
    // Sample entry should be renamed to encv
    assert!(result.windows(4).any(|w| w == b"encv"));
    // Original avc1 should only appear inside frma, not as a sample entry type
    // (frma contains it, but the entry type itself should be encv)
}

#[test]
fn create_protection_info_audio_enca() {
    let init = build_clear_init(b"mp4a");
    let key_set = make_key_set();
    let result = create_protection_info(
        &init, &key_set, &make_key_mapping(), EncryptionScheme::Cbcs, 16, (0, 0), ContainerFormat::Cmaf,
    ).unwrap();

    assert!(result.windows(4).any(|w| w == b"enca"));
    assert!(result.windows(4).any(|w| w == b"sinf"));
    assert!(result.windows(4).any(|w| w == b"cbcs"));
}

#[test]
fn create_protection_info_cenc_has_cenc_scheme() {
    let init = build_clear_init(b"avc1");
    let key_set = make_key_set();
    let result = create_protection_info(
        &init, &key_set, &make_key_mapping(), EncryptionScheme::Cenc, 8, (0, 0), ContainerFormat::Cmaf,
    ).unwrap();

    // schm box should contain "cenc"
    assert!(result.windows(4).any(|w| w == b"cenc"));
}

#[test]
fn strip_protection_info_removes_sinf_and_pssh() {
    let init = build_encrypted_init(b"encv", b"avc1");
    let result = strip_protection_info(&init, ContainerFormat::Cmaf).unwrap();

    // sinf should be removed
    assert!(!result.windows(4).any(|w| w == b"sinf"));
    // PSSH should be removed
    assert!(!result.windows(4).any(|w| w == b"pssh"));
    // Sample entry should be restored to avc1
    assert!(result.windows(4).any(|w| w == b"avc1"));
    // encv should no longer appear
    assert!(!result.windows(4).any(|w| w == b"encv"));
}

#[test]
fn strip_protection_info_audio_enca() {
    let init = build_encrypted_init(b"enca", b"mp4a");
    let result = strip_protection_info(&init, ContainerFormat::Cmaf).unwrap();

    assert!(!result.windows(4).any(|w| w == b"sinf"));
    assert!(result.windows(4).any(|w| w == b"mp4a"));
    assert!(!result.windows(4).any(|w| w == b"enca"));
}

#[test]
fn create_then_strip_roundtrip() {
    // Clear → Encrypted → Clear should restore original structure
    let init = build_clear_init(b"avc1");
    let key_set = make_key_set();

    let encrypted = create_protection_info(
        &init, &key_set, &make_key_mapping(), EncryptionScheme::Cenc, 8, (0, 0), ContainerFormat::Cmaf,
    ).unwrap();

    // Verify encryption was applied
    assert!(encrypted.windows(4).any(|w| w == b"encv"));
    assert!(encrypted.windows(4).any(|w| w == b"sinf"));

    let clear = strip_protection_info(&encrypted, ContainerFormat::Cmaf).unwrap();

    // Verify decryption info was stripped
    assert!(clear.windows(4).any(|w| w == b"avc1"));
    assert!(!clear.windows(4).any(|w| w == b"encv"));
    assert!(!clear.windows(4).any(|w| w == b"sinf"));
    assert!(!clear.windows(4).any(|w| w == b"pssh"));
}

#[test]
fn rewrite_ftyp_only_empty_data() {
    let result = rewrite_ftyp_only(&[], ContainerFormat::Cmaf).unwrap();
    assert!(result.is_empty());
}

#[test]
fn create_protection_info_empty_data() {
    let key_set = make_key_set();
    let result = create_protection_info(
        &[], &key_set, &make_key_mapping(), EncryptionScheme::Cenc, 8, (0, 0), ContainerFormat::Cmaf,
    ).unwrap();
    assert!(result.is_empty());
}

#[test]
fn strip_protection_info_empty_data() {
    let result = strip_protection_info(&[], ContainerFormat::Cmaf).unwrap();
    assert!(result.is_empty());
}
