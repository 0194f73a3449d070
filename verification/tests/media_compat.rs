use edgepack::drm::scheme::EncryptionScheme;
use edgepack::manifest::types::OutputFormat;
use edgepack::media::TrackType;
use edgepack::media::codec::TrackInfo;
use edgepack::media::compat::{HdrFormat, ValidationResult, detect_hdr_format, is_hdr_codec, validate_codec_scheme, validate_container_output_formats, validate_init_segment, validate_media_segment, validate_repackage_request};
use edgepack::media::container::ContainerFormat;

// --- ValidationResult ---

#[test]
fn validation_result_ok() {
    let r = ValidationResult::ok();
    assert!(r.valid);
    assert!(r.warnings.is_empty());
    assert!(r.errors.is_empty());
}

#[test]
fn validation_result_with_warning() {
    let r = ValidationResult::ok().with_warning("test warning");
    assert!(r.valid);
    assert_eq!(r.warnings.len(), 1);
    assert_eq!(r.warnings[0], "test warning");
}

#[test]
fn validation_result_with_error() {
    let r = ValidationResult::ok().with_error("test error");
    assert!(!r.valid);
    assert_eq!(r.errors.len(), 1);
    assert_eq!(r.errors[0], "test error");
}

#[test]
fn validation_result_merge() {
    let mut a = ValidationResult::ok().with_warning("w1");
    let b = ValidationResult::ok().with_error("e1").with_warning("w2");
    a.merge(b);
    assert!(!a.valid);
    assert_eq!(a.warnings.len(), 2);
    assert_eq!(a.errors.len(), 1);
}

// --- HDR detection ---

#[test]
fn detect_hdr_dolby_vision_dvhe() {
    assert_eq!(detect_hdr_format("dvhe.05.06"), Some(HdrFormat::DolbyVision));
}

#[test]
fn detect_hdr_dolby_vision_dvav() {
    assert_eq!(detect_hdr_format("dvav.se.06"), Some(HdrFormat::DolbyVision));
}

#[test]
fn detect_hdr_hevc_main10() {
    assert_eq!(detect_hdr_format("hev1.2.4.L120.90"), Some(HdrFormat::Hdr10));
}

#[test]
fn detect_hdr_hvc1_main10() {
    assert_eq!(detect_hdr_format("hvc1.2.4.L93.B0"), Some(HdrFormat::Hdr10));
}

#[test]
fn detect_hdr_av1_10bit() {
    assert_eq!(detect_hdr_format("av01.0.09M.10"), Some(HdrFormat::Hdr10));
}

#[test]
fn detect_hdr_vp9_profile2() {
    assert_eq!(detect_hdr_format("vp09.02.10.10"), Some(HdrFormat::Hdr10));
}

#[test]
fn detect_hdr_vp9_profile3() {
    assert_eq!(detect_hdr_format("vp09.03.10.12"), Some(HdrFormat::Hdr10));
}

#[test]
fn detect_non_hdr_avc() {
    assert_eq!(detect_hdr_format("avc1.64001f"), None);
}

#[test]
fn detect_non_hdr_aac() {
    assert_eq!(detect_hdr_format("mp4a.40.2"), None);
}

#[test]
fn detect_non_hdr_hevc_main() {
    // Profile 1 = Main (SDR)
    assert_eq!(detect_hdr_format("hev1.1.4.L120.90"), None);
}

#[test]
fn is_hdr_codec_true() {
    assert!(is_hdr_codec("hev1.2.4.L120.90"));
    assert!(is_hdr_codec("dvhe.05.06"));
}

#[test]
fn is_hdr_codec_false() {
    assert!(!is_hdr_codec("avc1.64001f"));
    assert!(!is_hdr_codec("mp4a.40.2"));
}

// --- Codec+scheme validation ---

#[test]
fn validate_codec_scheme_text_encrypted_error() {
    let r = validate_codec_scheme("wvtt", EncryptionScheme::Clear, EncryptionScheme::Cenc);
    assert!(!r.valid);
    assert!(r.errors[0].contains("text track"));
}

#[test]
fn validate_codec_scheme_stpp_encrypted_error() {
    let r = validate_codec_scheme("stpp", EncryptionScheme::Clear, EncryptionScheme::Cbcs);
    assert!(!r.valid);
}

#[test]
fn validate_codec_scheme_text_clear_ok() {
    let r = validate_codec_scheme("wvtt", EncryptionScheme::Clear, EncryptionScheme::Clear);
    assert!(r.valid);
}

#[test]
fn validate_codec_scheme_vp9_cbcs_error() {
    let r = validate_codec_scheme("vp09.00.10.08", EncryptionScheme::Clear, EncryptionScheme::Cbcs);
    assert!(!r.valid);
    assert!(r.errors[0].contains("VP9"));
}

#[test]
fn validate_codec_scheme_vp9_cenc_ok() {
    let r = validate_codec_scheme("vp09.00.10.08", EncryptionScheme::Clear, EncryptionScheme::Cenc);
    assert!(r.valid);
}

#[test]
fn validate_codec_scheme_av1_cbcs_warning() {
    let r = validate_codec_scheme("av01.0.04M.08", EncryptionScheme::Clear, EncryptionScheme::Cbcs);
    assert!(r.valid);
    assert!(r.warnings.iter().any(|w| w.contains("AV1")));
}

#[test]
fn validate_codec_scheme_hevc_cenc_warning() {
    let r = validate_codec_scheme("hev1.1.4.L120.90", EncryptionScheme::Clear, EncryptionScheme::Cenc);
    assert!(r.valid);
    assert!(r.warnings.iter().any(|w| w.contains("HEVC")));
}

#[test]
fn validate_codec_scheme_dolby_vision_warning() {
    let r = validate_codec_scheme("dvhe.05.06", EncryptionScheme::Clear, EncryptionScheme::Cenc);
    assert!(r.valid);
    assert!(r.warnings.iter().any(|w| w.contains("Dolby Vision")));
}

#[test]
fn validate_codec_scheme_avc_cenc_ok() {
    let r = validate_codec_scheme("avc1.64001f", EncryptionScheme::Clear, EncryptionScheme::Cenc);
    assert!(r.valid);
    assert!(r.warnings.is_empty());
}

#[test]
fn validate_codec_scheme_aac_clear_ok() {
    let r = validate_codec_scheme("mp4a.40.2", EncryptionScheme::Cbcs, EncryptionScheme::Clear);
    assert!(r.valid);
}

// --- Repackage request validation ---

#[test]
fn validate_repackage_request_empty_schemes() {
    let r = validate_repackage_request(
        EncryptionScheme::Clear,
        &[],
        ContainerFormat::Cmaf,
        &[],
    );
    assert!(!r.valid);
    assert!(r.errors[0].contains("at least one target scheme"));
}

#[test]
fn validate_repackage_request_valid() {
    let tracks = vec![
        TrackInfo {
            track_type: TrackType::Video,
            track_id: 1,
            codec_string: "avc1.64001f".to_string(),
            timescale: 90000,
            kid: None,
        },
        TrackInfo {
            track_type: TrackType::Audio,
            track_id: 2,
            codec_string: "mp4a.40.2".to_string(),
            timescale: 44100,
            kid: None,
        },
    ];
    let r = validate_repackage_request(
        EncryptionScheme::Clear,
        &[EncryptionScheme::Cenc],
        ContainerFormat::Cmaf,
        &tracks,
    );
    assert!(r.valid);
}

#[test]
fn validate_repackage_request_with_errors() {
    let tracks = vec![TrackInfo {
        track_type: TrackType::Video,
        track_id: 1,
        codec_string: "vp09.00.10.08".to_string(),
        timescale: 90000,
        kid: None,
    }];
    let r = validate_repackage_request(
        EncryptionScheme::Clear,
        &[EncryptionScheme::Cbcs],
        ContainerFormat::Cmaf,
        &tracks,
    );
    assert!(!r.valid);
}

#[test]
fn validate_repackage_request_dual_scheme() {
    let tracks = vec![TrackInfo {
        track_type: TrackType::Video,
        track_id: 1,
        codec_string: "avc1.64001f".to_string(),
        timescale: 90000,
        kid: None,
    }];
    let r = validate_repackage_request(
        EncryptionScheme::Cbcs,
        &[EncryptionScheme::Cenc, EncryptionScheme::Cbcs],
        ContainerFormat::Cmaf,
        &tracks,
    );
    assert!(r.valid);
}

// --- Init segment validation ---

#[test]
fn validate_init_segment_too_small() {
    let r = validate_init_segment(&[0; 4]);
    assert!(!r.valid);
}

#[test]
fn validate_init_segment_no_ftyp() {
    // Just a moov box with a trak child
    let mut data = Vec::new();
    // Build trak child
    let trak_payload = vec![0u8; 4];
    let trak_size = (8 + trak_payload.len()) as u32;
    let mut trak = Vec::new();
    trak.extend_from_slice(&trak_size.to_be_bytes());
    trak.extend_from_slice(b"trak");
    trak.extend_from_slice(&trak_payload);
    // Build moov
    let moov_size = (8 + trak.len()) as u32;
    data.extend_from_slice(&moov_size.to_be_bytes());
    data.extend_from_slice(b"moov");
    data.extend_from_slice(&trak);

    let r = validate_init_segment(&data);
    assert!(!r.valid);
    assert!(r.errors.iter().any(|e| e.contains("ftyp")));
}

#[test]
fn validate_init_segment_no_moov() {
    // Just an ftyp box
    let mut data = Vec::new();
    let ftyp_payload = b"isom\x00\x00\x00\x00isom";
    let ftyp_size = (8 + ftyp_payload.len()) as u32;
    data.extend_from_slice(&ftyp_size.to_be_bytes());
    data.extend_from_slice(b"ftyp");
    data.extend_from_slice(ftyp_payload);

    let r = validate_init_segment(&data);
    assert!(!r.valid);
    assert!(r.errors.iter().any(|e| e.contains("moov")));
}

#[test]
fn validate_init_segment_moov_no_trak() {
    let mut data = Vec::new();
    // ftyp
    let ftyp_size: u32 = 20;
    data.extend_from_slice(&ftyp_size.to_be_bytes());
    data.extend_from_slice(b"ftyp");
    data.extend_from_slice(b"isom\x00\x00\x00\x00isom");
    // moov with mvhd only (no trak)
    let mvhd_payload = vec![0u8; 12];
    let mvhd_size = (8 + mvhd_payload.len()) as u32;
    let moov_inner_size = 8 + mvhd_payload.len();
    let moov_size = (8 + moov_inner_size) as u32;
    data.extend_from_slice(&moov_size.to_be_bytes());
    data.extend_from_slice(b"moov");
    data.extend_from_slice(&mvhd_size.to_be_bytes());
    data.extend_from_slice(b"mvhd");
    data.extend_from_slice(&mvhd_payload);

    let r = validate_init_segment(&data);
    assert!(!r.valid);
    assert!(r.errors.iter().any(|e| e.contains("no trak")));
}

// --- Media segment validation ---

#[test]
fn validate_media_segment_too_small() {
    let r = validate_media_segment(&[0; 4], false);
    assert!(!r.valid);
}

#[test]
fn validate_media_segment_missing_moof() {
    // Just an mdat
    let mut data = Vec::new();
    let payload = vec![0u8; 16];
    let size = (8 + payload.len()) as u32;
    data.extend_from_slice(&size.to_be_bytes());
    data.extend_from_slice(b"mdat");
    data.extend_from_slice(&payload);

    let r = validate_media_segment(&data, false);
    assert!(!r.valid);
    assert!(r.errors.iter().any(|e| e.contains("moof")));
}

#[test]
fn validate_media_segment_missing_mdat() {
    // moof with traf→trun inside
    let mut trun = Vec::new();
    let trun_size: u32 = 20;
    trun.extend_from_slice(&trun_size.to_be_bytes());
    trun.extend_from_slice(b"trun");
    trun.extend_from_slice(&[0u8; 12]);

    let mut traf = Vec::new();
    let traf_size = (8 + trun.len()) as u32;
    traf.extend_from_slice(&traf_size.to_be_bytes());
    traf.extend_from_slice(b"traf");
    traf.extend_from_slice(&trun);

    let mut moof = Vec::new();
    let moof_size = (8 + traf.len()) as u32;
    moof.extend_from_slice(&moof_size.to_be_bytes());
    moof.extend_from_slice(b"moof");
    moof.extend_from_slice(&traf);

    let r = validate_media_segment(&moof, false);
    assert!(!r.valid);
    assert!(r.errors.iter().any(|e| e.contains("mdat")));
}

// --- TS container format validation ---


#[test]
fn validate_ts_with_dash_error() {
    let r = validate_container_output_formats(
        ContainerFormat::Ts,
        &[OutputFormat::Dash],
    );
    assert!(!r.valid);
    assert!(r.errors[0].contains("TS container format is not supported with DASH"));
}

#[test]
fn validate_ts_with_hls_ok() {
    let r = validate_container_output_formats(
        ContainerFormat::Ts,
        &[OutputFormat::Hls],
    );
    assert!(r.valid);
}

#[test]
fn validate_ts_with_dual_format_error() {
    let r = validate_container_output_formats(
        ContainerFormat::Ts,
        &[OutputFormat::Hls, OutputFormat::Dash],
    );
    assert!(!r.valid);
}

#[test]
fn validate_cmaf_with_dash_ok() {
    let r = validate_container_output_formats(
        ContainerFormat::Cmaf,
        &[OutputFormat::Dash],
    );
    assert!(r.valid);
}
