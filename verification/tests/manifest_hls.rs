use edgepack::decimal::Decimal;
use edgepack::drm::scheme::EncryptionScheme;
use edgepack::manifest::hls::{render, render_master};
use edgepack::manifest::types::{AdBreakInfo, CeaCaptionInfo, ContentSteeringConfig, InitSegmentInfo, ManifestDrmInfo, ManifestPhase, ManifestState, OutputFormat, PartInfo, SegmentInfo, TrackMediaType, VariantInfo};
use edgepack::media::container::ContainerFormat;

/// Seconds as the library counts them.
fn secs(x: f64) -> Decimal {
    Decimal { nanos: (x * 1e9).round() as i128 }
}

fn make_state(phase: ManifestPhase) -> ManifestState {
    let mut s = ManifestState::new("test".into(), OutputFormat::Hls, "/base/".into(), ContainerFormat::default());
    s.phase = phase;
    s
}

fn make_live_state_with_segments(count: u32) -> ManifestState {
    let mut s = make_state(ManifestPhase::Live);
    s.init_segment = Some(InitSegmentInfo {
        uri: "/base/init.mp4".into(),
        byte_size: 256,
    });
    for i in 0..count {
        s.segments.push(SegmentInfo {
            number: i,
            duration: secs(6.006),
            uri: format!("/base/segment_{i}.cmfv"),
            byte_size: 1024,
            key_period: None,
        });
    }
    s
}

#[test]
fn hls_render_awaiting_returns_minimal() {
    let state = make_state(ManifestPhase::AwaitingFirstSegment);
    let m3u8 = render(&state).unwrap();
    assert!(m3u8.contains("#EXTM3U"));
    assert!(m3u8.contains("#EXT-X-VERSION:7"));
    assert!(!m3u8.contains("#EXT-X-PLAYLIST-TYPE"));
    assert!(!m3u8.contains("#EXTINF"));
}

#[test]
fn render_live_no_endlist() {
    let state = make_live_state_with_segments(2);
    let m3u8 = render(&state).unwrap();
    assert!(m3u8.contains("#EXT-X-PLAYLIST-TYPE:EVENT"));
    assert!(m3u8.contains("#EXT-X-INDEPENDENT-SEGMENTS"));
    assert!(m3u8.contains("#EXT-X-MAP:URI=\"/base/init.mp4\""));
    assert!(m3u8.contains("#EXTINF:6.006000,"));
    assert!(m3u8.contains("/base/segment_0.cmfv"));
    assert!(m3u8.contains("/base/segment_1.cmfv"));
    assert!(!m3u8.contains("#EXT-X-ENDLIST"));
}

#[test]
fn render_complete_has_endlist() {
    let mut state = make_live_state_with_segments(3);
    state.phase = ManifestPhase::Complete;
    let m3u8 = render(&state).unwrap();
    assert!(m3u8.contains("#EXT-X-PLAYLIST-TYPE:VOD"));
    assert!(m3u8.contains("#EXT-X-ENDLIST"));
}

#[test]
fn render_target_duration_rounded_up() {
    let mut state = make_live_state_with_segments(1);
    state.target_duration = secs(6.006);
    let m3u8 = render(&state).unwrap();
    assert!(m3u8.contains("#EXT-X-TARGETDURATION:7"));
}

#[test]
fn render_media_sequence() {
    let mut state = make_live_state_with_segments(1);
    state.media_sequence = 42;
    let m3u8 = render(&state).unwrap();
    assert!(m3u8.contains("#EXT-X-MEDIA-SEQUENCE:42"));
}

#[test]
fn render_with_drm_widevine() {
    let mut state = make_live_state_with_segments(1);
    state.drm_info = Some(ManifestDrmInfo {
        encryption_scheme: EncryptionScheme::Cenc,
        widevine_pssh: Some("AAAA".into()),
        playready_pssh: None,
        playready_pro: None,
        fairplay_key_uri: None,
        default_kid: "0123456789abcdef0123456789abcdef".into(),
        clearkey_pssh: None,
    });
    let m3u8 = render(&state).unwrap();
    assert!(m3u8.contains("METHOD=SAMPLE-AES-CTR"));
    assert!(m3u8.contains("KEYFORMAT=\"urn:uuid:edef8ba9-79d6-4ace-a3c8-27dcd51d21ed\""));
    assert!(m3u8.contains("KEYID=0x0123456789abcdef0123456789abcdef"));
}

#[test]
fn render_with_drm_cbcs_uses_sample_aes() {
    let mut state = make_live_state_with_segments(1);
    state.drm_info = Some(ManifestDrmInfo {
        encryption_scheme: EncryptionScheme::Cbcs,
        widevine_pssh: Some("AAAA".into()),
        playready_pssh: None,
        playready_pro: None,
        fairplay_key_uri: None,
        default_kid: "0123456789abcdef0123456789abcdef".into(),
        clearkey_pssh: None,
    });
    let m3u8 = render(&state).unwrap();
    assert!(m3u8.contains("METHOD=SAMPLE-AES"));
    assert!(!m3u8.contains("METHOD=SAMPLE-AES-CTR"));
}

#[test]
fn render_with_drm_playready() {
    let mut state = make_live_state_with_segments(1);
    state.drm_info = Some(ManifestDrmInfo {
        encryption_scheme: EncryptionScheme::Cenc,
        widevine_pssh: None,
        playready_pssh: Some("BBBB".into()),
        playready_pro: None,
        fairplay_key_uri: None,
        default_kid: "abcdef01234567890123456789abcdef".into(),
        clearkey_pssh: None,
    });
    let m3u8 = render(&state).unwrap();
    assert!(m3u8.contains("KEYFORMAT=\"urn:uuid:9a04f079-9840-4286-ab92-e65be0885f95\""));
}

#[test]
fn render_with_both_drm_systems() {
    let mut state = make_live_state_with_segments(1);
    state.drm_info = Some(ManifestDrmInfo {
        encryption_scheme: EncryptionScheme::Cenc,
        widevine_pssh: Some("WV".into()),
        playready_pssh: Some("PR".into()),
        playready_pro: None,
        fairplay_key_uri: None,
        default_kid: "00000000000000000000000000000001".into(),
        clearkey_pssh: None,
    });
    let m3u8 = render(&state).unwrap();
    let key_count = m3u8.matches("#EXT-X-KEY:").count();
    assert_eq!(key_count, 2);
}

#[test]
fn render_with_fairplay() {
    let mut state = make_live_state_with_segments(1);
    state.drm_info = Some(ManifestDrmInfo {
        encryption_scheme: EncryptionScheme::Cbcs,
        widevine_pssh: None,
        playready_pssh: None,
        playready_pro: None,
        fairplay_key_uri: Some("skd://key-server/key-id".into()),
        default_kid: "0123456789abcdef0123456789abcdef".into(),
        clearkey_pssh: None,
    });
    let m3u8 = render(&state).unwrap();
    assert!(m3u8.contains("METHOD=SAMPLE-AES"));
    assert!(m3u8.contains("KEYFORMAT=\"com.apple.streamingkeydelivery\""));
    assert!(m3u8.contains("skd://key-server/key-id"));
}

#[test]
fn render_with_ad_break() {
    let mut state = make_live_state_with_segments(3);
    state.ad_breaks.push(AdBreakInfo {
        id: 42,
        presentation_time: secs(12.0),
        duration: Some(secs(30.0)),
        scte35_cmd: None,
        segment_number: 2,
    });
    let m3u8 = render(&state).unwrap();
    assert!(m3u8.contains("#EXT-X-DATERANGE:ID=\"splice-42\""));
    assert!(m3u8.contains("PLANNED-DURATION=30.000"));
    // Should appear before segment 2's EXTINF
    let daterange_pos = m3u8.find("splice-42").unwrap();
    let seg2_pos = m3u8.find("/base/segment_2.cmfv").unwrap();
    assert!(daterange_pos < seg2_pos);
}

#[test]
fn render_with_ad_break_no_duration() {
    let mut state = make_live_state_with_segments(2);
    state.ad_breaks.push(AdBreakInfo {
        id: 1,
        presentation_time: secs(6.0),
        duration: None,
        scte35_cmd: None,
        segment_number: 1,
    });
    let m3u8 = render(&state).unwrap();
    assert!(m3u8.contains("#EXT-X-DATERANGE:ID=\"splice-1\""));
    assert!(!m3u8.contains("PLANNED-DURATION"));
}

#[test]
fn hls_render_with_ad_break_scte35_cmd() {
    let mut state = make_live_state_with_segments(1);
    // Base64 of [0xFC, 0x30] → "/DA="
    state.ad_breaks.push(AdBreakInfo {
        id: 5,
        presentation_time: secs(0.0),
        duration: None,
        scte35_cmd: Some("/DA=".to_string()),
        segment_number: 0,
    });
    let m3u8 = render(&state).unwrap();
    assert!(m3u8.contains("SCTE35-CMD=0x"));
}

#[test]
fn render_no_ad_breaks_unchanged() {
    let state = make_live_state_with_segments(2);
    let m3u8 = render(&state).unwrap();
    assert!(!m3u8.contains("EXT-X-DATERANGE"));
}

#[test]
fn render_multiple_ad_breaks() {
    let mut state = make_live_state_with_segments(3);
    state.ad_breaks.push(AdBreakInfo {
        id: 1,
        presentation_time: secs(6.0),
        duration: Some(secs(15.0)),
        scte35_cmd: None,
        segment_number: 1,
    });
    state.ad_breaks.push(AdBreakInfo {
        id: 2,
        presentation_time: secs(12.0),
        duration: Some(secs(30.0)),
        scte35_cmd: None,
        segment_number: 2,
    });
    let m3u8 = render(&state).unwrap();
    assert_eq!(m3u8.matches("EXT-X-DATERANGE").count(), 2);
}

#[test]
fn render_no_init_segment() {
    let mut state = make_state(ManifestPhase::Live);
    state.segments.push(SegmentInfo {
        number: 0,
        duration: secs(6.0),
        uri: "seg.cmfv".into(),
        byte_size: 100,
        key_period: None,
    });
    let m3u8 = render(&state).unwrap();
    assert!(!m3u8.contains("#EXT-X-MAP"));
}

#[test]
fn render_master_video_variant() {
    let mut state = make_state(ManifestPhase::Live);
    state.variants.push(VariantInfo {
        id: "v720".into(),
        bandwidth: 3_000_000,
        codecs: "avc1.64001f".into(),
        resolution: Some((1280, 720)),
        frame_rate: Some(secs(29.97)),
        track_type: TrackMediaType::Video,
        language: None,
        segment_path_prefix: None,
    });
    let uris = vec!["v720.m3u8".to_string()];
    let m3u8 = render_master(&state, &uris).unwrap();
    assert!(m3u8.contains("#EXTM3U"));
    assert!(m3u8.contains("#EXT-X-STREAM-INF:BANDWIDTH=3000000"));
    assert!(m3u8.contains("CODECS=\"avc1.64001f\""));
    assert!(m3u8.contains("RESOLUTION=1280x720"));
    assert!(m3u8.contains("FRAME-RATE=29.970"));
    assert!(m3u8.contains("v720.m3u8"));
}

#[test]
fn render_master_audio_variant() {
    let mut state = make_state(ManifestPhase::Live);
    state.variants.push(VariantInfo {
        id: "audio_en".into(),
        bandwidth: 128_000,
        codecs: "mp4a.40.2".into(),
        resolution: None,
        frame_rate: None,
        track_type: TrackMediaType::Audio,
        language: None,
        segment_path_prefix: None,
    });
    let uris = vec!["audio.m3u8".to_string()];
    let m3u8 = render_master(&state, &uris).unwrap();
    assert!(m3u8.contains("#EXT-X-MEDIA:TYPE=AUDIO"));
    assert!(m3u8.contains("GROUP-ID=\"audio\""));
    assert!(m3u8.contains("NAME=\"audio_en\""));
}

#[test]
fn render_master_with_session_key() {
    let mut state = make_state(ManifestPhase::Live);
    state.drm_info = Some(ManifestDrmInfo {
        encryption_scheme: EncryptionScheme::Cenc,
        widevine_pssh: Some("WVPSSH".into()),
        playready_pssh: None,
        playready_pro: None,
        fairplay_key_uri: None,
        default_kid: "00000000000000000000000000000001".into(),
        clearkey_pssh: None,
    });
    state.variants.push(VariantInfo {
        id: "v1".into(),
        bandwidth: 2_000_000,
        codecs: "avc1.64001f".into(),
        resolution: None,
        frame_rate: None,
        track_type: TrackMediaType::Video,
        language: None,
        segment_path_prefix: None,
    });
    let uris = vec!["v1.m3u8".into()];
    let m3u8 = render_master(&state, &uris).unwrap();
    assert!(m3u8.contains("#EXT-X-SESSION-KEY:METHOD=SAMPLE-AES-CTR"));
}

#[test]
fn render_master_missing_uri_falls_back() {
    let mut state = make_state(ManifestPhase::Live);
    state.variants.push(VariantInfo {
        id: "v1".into(),
        bandwidth: 1_000_000,
        codecs: "avc1.42c01e".into(),
        resolution: None,
        frame_rate: None,
        track_type: TrackMediaType::Video,
        language: None,
        segment_path_prefix: None,
    });
    let m3u8 = render_master(&state, &[]).unwrap();
    assert!(m3u8.contains("variant.m3u8"));
}

#[test]
fn render_master_subtitle_rendition() {
    let mut state = make_state(ManifestPhase::Live);
    state.variants.push(VariantInfo {
        id: "v1".into(),
        bandwidth: 2_000_000,
        codecs: "avc1.64001f".into(),
        resolution: Some((1280, 720)),
        frame_rate: None,
        track_type: TrackMediaType::Video,
        language: None,
        segment_path_prefix: None,
    });
    state.variants.push(VariantInfo {
        id: "sub_eng".into(),
        bandwidth: 0,
        codecs: "wvtt".into(),
        resolution: None,
        frame_rate: None,
        track_type: TrackMediaType::Subtitle,
        language: Some("eng".into()),
        segment_path_prefix: None,
    });
    let uris = vec!["v1.m3u8".into(), "subs_eng.m3u8".into()];
    let m3u8 = render_master(&state, &uris).unwrap();
    // Should have subtitle rendition group
    assert!(m3u8.contains("#EXT-X-MEDIA:TYPE=SUBTITLES"));
    assert!(m3u8.contains("GROUP-ID=\"subs\""));
    assert!(m3u8.contains("LANGUAGE=\"eng\""));
    assert!(m3u8.contains("NAME=\"sub_eng\""));
    assert!(m3u8.contains("URI=\"subs_eng.m3u8\""));
    // Video STREAM-INF should reference subs group
    assert!(m3u8.contains("SUBTITLES=\"subs\""));
}

#[test]
fn render_master_subtitle_stpp() {
    let mut state = make_state(ManifestPhase::Live);
    state.variants.push(VariantInfo {
        id: "v1".into(),
        bandwidth: 2_000_000,
        codecs: "avc1.64001f".into(),
        resolution: None,
        frame_rate: None,
        track_type: TrackMediaType::Video,
        language: None,
        segment_path_prefix: None,
    });
    state.variants.push(VariantInfo {
        id: "sub_spa".into(),
        bandwidth: 0,
        codecs: "stpp".into(),
        resolution: None,
        frame_rate: None,
        track_type: TrackMediaType::Subtitle,
        language: Some("spa".into()),
        segment_path_prefix: None,
    });
    let uris = vec!["v1.m3u8".into(), "subs_spa.m3u8".into()];
    let m3u8 = render_master(&state, &uris).unwrap();
    assert!(m3u8.contains("LANGUAGE=\"spa\""));
    assert!(m3u8.contains("NAME=\"sub_spa\""));
    assert!(m3u8.contains("SUBTITLES=\"subs\""));
}

#[test]
fn render_master_subtitle_no_language_defaults_und() {
    let mut state = make_state(ManifestPhase::Live);
    state.variants.push(VariantInfo {
        id: "v1".into(),
        bandwidth: 2_000_000,
        codecs: "avc1.64001f".into(),
        resolution: None,
        frame_rate: None,
        track_type: TrackMediaType::Video,
        language: None,
        segment_path_prefix: None,
    });
    state.variants.push(VariantInfo {
        id: "sub1".into(),
        bandwidth: 0,
        codecs: "wvtt".into(),
        resolution: None,
        frame_rate: None,
        track_type: TrackMediaType::Subtitle,
        language: None,
        segment_path_prefix: None,
    });
    let uris = vec!["v1.m3u8".into(), "subs.m3u8".into()];
    let m3u8 = render_master(&state, &uris).unwrap();
    assert!(m3u8.contains("LANGUAGE=\"und\""));
}

#[test]
fn render_master_cea_608_captions() {
    let mut state = make_state(ManifestPhase::Live);
    state.variants.push(VariantInfo {
        id: "v1".into(),
        bandwidth: 2_000_000,
        codecs: "avc1.64001f".into(),
        resolution: None,
        frame_rate: None,
        track_type: TrackMediaType::Video,
        language: None,
        segment_path_prefix: None,
    });
    state.cea_captions.push(CeaCaptionInfo {
        service_name: "CC1".into(),
        language: "eng".into(),
        is_608: true,
    });
    let uris = vec!["v1.m3u8".into()];
    let m3u8 = render_master(&state, &uris).unwrap();
    // Should have closed captions signaling
    assert!(m3u8.contains("#EXT-X-MEDIA:TYPE=CLOSED-CAPTIONS"));
    assert!(m3u8.contains("GROUP-ID=\"cc\""));
    assert!(m3u8.contains("LANGUAGE=\"eng\""));
    assert!(m3u8.contains("INSTREAM-ID=\"CC1\""));
    // Video STREAM-INF should reference cc group
    assert!(m3u8.contains("CLOSED-CAPTIONS=\"cc\""));
}

#[test]
fn render_master_cea_708_captions() {
    let mut state = make_state(ManifestPhase::Live);
    state.variants.push(VariantInfo {
        id: "v1".into(),
        bandwidth: 2_000_000,
        codecs: "avc1.64001f".into(),
        resolution: None,
        frame_rate: None,
        track_type: TrackMediaType::Video,
        language: None,
        segment_path_prefix: None,
    });
    state.cea_captions.push(CeaCaptionInfo {
        service_name: "SERVICE1".into(),
        language: "eng".into(),
        is_608: false,
    });
    let uris = vec!["v1.m3u8".into()];
    let m3u8 = render_master(&state, &uris).unwrap();
    assert!(m3u8.contains("INSTREAM-ID=\"SERVICE1\""));
}

#[test]
fn render_master_multiple_captions_and_subs() {
    let mut state = make_state(ManifestPhase::Live);
    state.variants.push(VariantInfo {
        id: "v1".into(),
        bandwidth: 2_000_000,
        codecs: "avc1.64001f".into(),
        resolution: None,
        frame_rate: None,
        track_type: TrackMediaType::Video,
        language: None,
        segment_path_prefix: None,
    });
    state.variants.push(VariantInfo {
        id: "sub_eng".into(),
        bandwidth: 0,
        codecs: "wvtt".into(),
        resolution: None,
        frame_rate: None,
        track_type: TrackMediaType::Subtitle,
        language: Some("eng".into()),
        segment_path_prefix: None,
    });
    state.variants.push(VariantInfo {
        id: "sub_spa".into(),
        bandwidth: 0,
        codecs: "wvtt".into(),
        resolution: None,
        frame_rate: None,
        track_type: TrackMediaType::Subtitle,
        language: Some("spa".into()),
        segment_path_prefix: None,
    });
    state.cea_captions.push(CeaCaptionInfo {
        service_name: "CC1".into(),
        language: "eng".into(),
        is_608: true,
    });
    state.cea_captions.push(CeaCaptionInfo {
        service_name: "CC3".into(),
        language: "spa".into(),
        is_608: true,
    });
    let uris = vec!["v1.m3u8".into(), "subs_eng.m3u8".into(), "subs_spa.m3u8".into()];
    let m3u8 = render_master(&state, &uris).unwrap();
    // Two subtitle renditions
    assert_eq!(m3u8.matches("TYPE=SUBTITLES").count(), 2);
    // Two closed caption entries
    assert_eq!(m3u8.matches("TYPE=CLOSED-CAPTIONS").count(), 2);
    // Video has both group references
    assert!(m3u8.contains("SUBTITLES=\"subs\""));
    assert!(m3u8.contains("CLOSED-CAPTIONS=\"cc\""));
}

#[test]
fn render_master_audio_with_language() {
    let mut state = make_state(ManifestPhase::Live);
    state.variants.push(VariantInfo {
        id: "v1".into(),
        bandwidth: 2_000_000,
        codecs: "avc1.64001f".into(),
        resolution: None,
        frame_rate: None,
        track_type: TrackMediaType::Video,
        language: None,
        segment_path_prefix: None,
    });
    state.variants.push(VariantInfo {
        id: "audio_eng".into(),
        bandwidth: 128_000,
        codecs: "mp4a.40.2".into(),
        resolution: None,
        frame_rate: None,
        track_type: TrackMediaType::Audio,
        language: Some("eng".into()),
        segment_path_prefix: None,
    });
    let uris = vec!["v1.m3u8".into(), "audio.m3u8".into()];
    let m3u8 = render_master(&state, &uris).unwrap();
    assert!(m3u8.contains("LANGUAGE=\"eng\""));
    assert!(m3u8.contains("AUDIO=\"audio\""));
}

#[test]
fn render_with_clearkey() {
    let mut state = make_live_state_with_segments(1);
    state.drm_info = Some(ManifestDrmInfo {
        encryption_scheme: EncryptionScheme::Cenc,
        widevine_pssh: None,
        playready_pssh: None,
        playready_pro: None,
        fairplay_key_uri: None,
        default_kid: "0123456789abcdef0123456789abcdef".into(),
        clearkey_pssh: Some("CKDATA".into()),
    });
    let m3u8 = render(&state).unwrap();
    assert!(m3u8.contains("KEYFORMAT=\"urn:uuid:e2719d58-a985-b3c9-781a-b030af78d30e\""));
    assert!(m3u8.contains("CKDATA"));
}

#[test]
fn render_with_clear_lead() {
    let mut state = make_live_state_with_segments(4);
    state.drm_info = Some(ManifestDrmInfo {
        encryption_scheme: EncryptionScheme::Cenc,
        widevine_pssh: Some("WV".into()),
        playready_pssh: None,
        playready_pro: None,
        fairplay_key_uri: None,
        default_kid: "00000000000000000000000000000001".into(),
        clearkey_pssh: None,
    });
    state.clear_lead_boundary = Some(2);
    let m3u8 = render(&state).unwrap();
    // Should have METHOD=NONE at start
    assert!(m3u8.contains("METHOD=NONE"));
    // Should have DRM key at boundary
    let none_pos = m3u8.find("METHOD=NONE").unwrap();
    let drm_pos = m3u8.rfind("SAMPLE-AES-CTR").unwrap();
    assert!(drm_pos > none_pos);
}

// --- LL-HLS rendering tests ---

#[test]
fn render_ll_hls_version_9() {
    let mut state = make_live_state_with_segments(1);
    state.part_target_duration = Some(secs(0.33334));
    let m3u8 = render(&state).unwrap();
    assert!(m3u8.contains("#EXT-X-VERSION:9"));
    assert!(!m3u8.contains("#EXT-X-VERSION:7"));
}

#[test]
fn render_ll_hls_part_inf() {
    let mut state = make_live_state_with_segments(1);
    state.part_target_duration = Some(secs(0.33334));
    let m3u8 = render(&state).unwrap();
    assert!(m3u8.contains("#EXT-X-PART-INF:PART-TARGET=0.33334"));
}

#[test]
fn render_ll_hls_server_control() {
    let mut state = make_live_state_with_segments(1);
    state.part_target_duration = Some(secs(0.33334));
    state.server_control = Some(edgepack::manifest::types::ServerControl {
        can_skip_until: Some(secs(12.0)),
        hold_back: None,
        part_hold_back: Some(secs(1.0)),
        can_block_reload: true,
    });
    let m3u8 = render(&state).unwrap();
    assert!(m3u8.contains("#EXT-X-SERVER-CONTROL:"));
    assert!(m3u8.contains("CAN-BLOCK-RELOAD=YES"));
    assert!(m3u8.contains("PART-HOLD-BACK="));
    assert!(m3u8.contains("CAN-SKIP-UNTIL="));
}

#[test]
fn render_ll_hls_parts_before_extinf() {
    let mut state = make_live_state_with_segments(2);
    state.part_target_duration = Some(secs(0.33334));
    state.parts.push(edgepack::manifest::types::PartInfo {
        segment_number: 0,
        part_index: 0,
        duration: secs(0.33334),
        independent: true,
        uri: "/base/part_0.0.cmfv".into(),
        byte_size: 5000,
    });
    state.parts.push(edgepack::manifest::types::PartInfo {
        segment_number: 0,
        part_index: 1,
        duration: secs(0.33334),
        independent: false,
        uri: "/base/part_0.1.cmfv".into(),
        byte_size: 4000,
    });
    state.parts.push(edgepack::manifest::types::PartInfo {
        segment_number: 1,
        part_index: 0,
        duration: secs(0.33334),
        independent: true,
        uri: "/base/part_1.0.cmfv".into(),
        byte_size: 5000,
    });
    let m3u8 = render(&state).unwrap();
    // RFC 8216bis 4.4.4.9: Parts MUST appear before the EXTINF of the parent segment
    let part00_pos = m3u8.find("/base/part_0.0.cmfv").unwrap();
    let part01_pos = m3u8.find("/base/part_0.1.cmfv").unwrap();
    let seg0_pos = m3u8.find("/base/segment_0.cmfv").unwrap();
    let part10_pos = m3u8.find("/base/part_1.0.cmfv").unwrap();
    let seg1_pos = m3u8.find("/base/segment_1.cmfv").unwrap();
    // Segment 0's parts appear before segment 0's URI
    assert!(part00_pos < seg0_pos, "part 0.0 must precede segment 0 URI");
    assert!(part01_pos < seg0_pos, "part 0.1 must precede segment 0 URI");
    assert!(part01_pos > part00_pos, "parts must be in order");
    // Segment 1's part appears before segment 1's URI
    assert!(part10_pos < seg1_pos, "part 1.0 must precede segment 1 URI");
    // Segment 0's parts appear before segment 1's parts
    assert!(part01_pos < part10_pos, "segment 0 parts before segment 1 parts");
    // Independent flag
    assert!(m3u8.contains("INDEPENDENT=YES"));
    // Part count
    assert_eq!(m3u8.matches("#EXT-X-PART:").count(), 3);
}

#[test]
fn render_ll_hls_independent_flag() {
    let mut state = make_live_state_with_segments(1);
    state.part_target_duration = Some(secs(0.5));
    state.parts.push(edgepack::manifest::types::PartInfo {
        segment_number: 0,
        part_index: 0,
        duration: secs(0.5),
        independent: true,
        uri: "/base/part.cmfv".into(),
        byte_size: 1000,
    });
    let m3u8 = render(&state).unwrap();
    assert!(m3u8.contains("INDEPENDENT=YES"));
}

#[test]
fn render_backward_compat_no_parts_version_7() {
    let state = make_live_state_with_segments(2);
    let m3u8 = render(&state).unwrap();
    assert!(m3u8.contains("#EXT-X-VERSION:7"));
    assert!(!m3u8.contains("#EXT-X-VERSION:9"));
    assert!(!m3u8.contains("#EXT-X-PART-INF"));
    assert!(!m3u8.contains("#EXT-X-SERVER-CONTROL"));
    assert!(!m3u8.contains("#EXT-X-PART:"));
}

#[test]
fn render_with_key_rotation() {
    let mut state = make_state(ManifestPhase::Live);
    state.init_segment = Some(InitSegmentInfo { uri: "/base/init.mp4".into(), byte_size: 256 });
    // Add segments with different key periods
    for i in 0..6u32 {
        state.segments.push(SegmentInfo {
            number: i,
            duration: secs(6.0),
            uri: format!("/base/segment_{i}.cmfv"),
            byte_size: 1024,
            key_period: Some(i / 3), // period changes at segment 3
        });
    }
    state.rotation_drm_info.push(ManifestDrmInfo {
        encryption_scheme: EncryptionScheme::Cenc,
        widevine_pssh: Some("WV_P0".into()),
        playready_pssh: None,
        playready_pro: None,
        fairplay_key_uri: None,
        default_kid: "00000000000000000000000000000001".into(),
        clearkey_pssh: None,
    });
    state.rotation_drm_info.push(ManifestDrmInfo {
        encryption_scheme: EncryptionScheme::Cenc,
        widevine_pssh: Some("WV_P1".into()),
        playready_pssh: None,
        playready_pro: None,
        fairplay_key_uri: None,
        default_kid: "00000000000000000000000000000002".into(),
        clearkey_pssh: None,
    });
    let m3u8 = render(&state).unwrap();
    // Should have KEY tags for both periods
    assert!(m3u8.contains("WV_P0"));
    assert!(m3u8.contains("WV_P1"));
}

// --- Content steering tests ---

#[test]
fn render_master_content_steering_full() {
    let mut state = make_state(ManifestPhase::Live);
    state.content_steering = Some(ContentSteeringConfig {
        server_uri: "https://steer.example.com/v1".into(),
        default_pathway_id: Some("cdn-a".into()),
        query_before_start: None,
    });
    state.variants.push(VariantInfo {
        id: "v1".into(),
        bandwidth: 2_000_000,
        codecs: "avc1.64001f".into(),
        resolution: Some((1280, 720)),
        frame_rate: None,
        track_type: TrackMediaType::Video,
        language: None,
        segment_path_prefix: None,
    });
    let m3u8 = render_master(&state, &["v1.m3u8".into()]).unwrap();
    assert!(m3u8.contains("#EXT-X-CONTENT-STEERING:SERVER-URI=\"https://steer.example.com/v1\",PATHWAY-ID=\"cdn-a\""));
}

#[test]
fn render_master_content_steering_server_uri_only() {
    let mut state = make_state(ManifestPhase::Live);
    state.content_steering = Some(ContentSteeringConfig {
        server_uri: "https://steer.example.com/v1".into(),
        default_pathway_id: None,
        query_before_start: None,
    });
    state.variants.push(VariantInfo {
        id: "v1".into(),
        bandwidth: 2_000_000,
        codecs: "avc1.64001f".into(),
        resolution: Some((1280, 720)),
        frame_rate: None,
        track_type: TrackMediaType::Video,
        language: None,
        segment_path_prefix: None,
    });
    let m3u8 = render_master(&state, &["v1.m3u8".into()]).unwrap();
    assert!(m3u8.contains("#EXT-X-CONTENT-STEERING:SERVER-URI=\"https://steer.example.com/v1\""));
    assert!(!m3u8.contains("PATHWAY-ID"));
}

#[test]
fn render_master_no_content_steering_backward_compat() {
    let mut state = make_state(ManifestPhase::Live);
    state.variants.push(VariantInfo {
        id: "v1".into(),
        bandwidth: 2_000_000,
        codecs: "avc1.64001f".into(),
        resolution: Some((1280, 720)),
        frame_rate: None,
        track_type: TrackMediaType::Video,
        language: None,
        segment_path_prefix: None,
    });
    let m3u8 = render_master(&state, &["v1.m3u8".into()]).unwrap();
    assert!(!m3u8.contains("CONTENT-STEERING"));
}

#[test]
fn render_master_content_steering_tag_position() {
    let mut state = make_state(ManifestPhase::Live);
    state.content_steering = Some(ContentSteeringConfig {
        server_uri: "https://steer.example.com/v1".into(),
        default_pathway_id: Some("cdn-a".into()),
        query_before_start: None,
    });
    state.drm_info = Some(ManifestDrmInfo {
        encryption_scheme: EncryptionScheme::Cenc,
        widevine_pssh: Some("WV_PSSH".into()),
        playready_pssh: None,
        playready_pro: None,
        fairplay_key_uri: None,
        default_kid: "0123456789abcdef0123456789abcdef".into(),
        clearkey_pssh: None,
    });
    state.variants.push(VariantInfo {
        id: "v1".into(),
        bandwidth: 2_000_000,
        codecs: "avc1.64001f".into(),
        resolution: Some((1280, 720)),
        frame_rate: None,
        track_type: TrackMediaType::Video,
        language: None,
        segment_path_prefix: None,
    });
    let m3u8 = render_master(&state, &["v1.m3u8".into()]).unwrap();
    let ind_pos = m3u8.find("#EXT-X-INDEPENDENT-SEGMENTS").unwrap();
    let steer_pos = m3u8.find("#EXT-X-CONTENT-STEERING").unwrap();
    let session_pos = m3u8.find("#EXT-X-SESSION-KEY").unwrap();
    assert!(steer_pos > ind_pos, "steering should be after INDEPENDENT-SEGMENTS");
    assert!(steer_pos < session_pos, "steering should be before SESSION-KEY");
}

#[test]
fn render_media_playlist_never_has_content_steering() {
    let mut state = make_live_state_with_segments(2);
    state.content_steering = Some(ContentSteeringConfig {
        server_uri: "https://steer.example.com/v1".into(),
        default_pathway_id: Some("cdn-a".into()),
        query_before_start: None,
    });
    let m3u8 = render(&state).unwrap();
    assert!(!m3u8.contains("CONTENT-STEERING"));
}

// --- DATERANGE 24h fix tests ---

#[test]
fn render_ad_break_start_date_beyond_24h() {
    let mut state = make_live_state_with_segments(1);
    // presentation_time = 90061.5s = 25h1m1.5s → should be 1970-01-02T01:01:01.500Z
    state.ad_breaks.push(AdBreakInfo {
        id: 1,
        presentation_time: secs(90061.5),
        duration: None,
        scte35_cmd: None,
        segment_number: 0,
    });
    let m3u8 = render(&state).unwrap();
    assert!(
        m3u8.contains("START-DATE=\"1970-01-02T01:01:01.500Z\""),
        "START-DATE must not wrap at 24h: {}",
        m3u8
    );
}

#[test]
fn render_ad_break_start_date_within_24h() {
    let mut state = make_live_state_with_segments(1);
    // 12.0s = 0h0m12.0s → 1970-01-01T00:00:12.000Z (unchanged behavior)
    state.ad_breaks.push(AdBreakInfo {
        id: 1,
        presentation_time: secs(12.0),
        duration: None,
        scte35_cmd: None,
        segment_number: 0,
    });
    let m3u8 = render(&state).unwrap();
    assert!(m3u8.contains("START-DATE=\"1970-01-01T00:00:12.000Z\""));
}

// --- DVR windowed ad breaks + parts tests ---

#[test]
fn render_dvr_windowed_ad_breaks() {
    let mut state = make_live_state_with_segments(10);
    state.dvr_window_duration = Some(secs(30.0)); // 5 segments × 6.006s ≈ 30s → segments 5-9

    // Ad break in segment 1 (outside window) — should NOT appear
    state.ad_breaks.push(AdBreakInfo {
        id: 1,
        presentation_time: secs(6.0),
        duration: Some(secs(15.0)),
        scte35_cmd: None,
        segment_number: 1,
    });
    // Ad break in segment 7 (inside window) — should appear
    state.ad_breaks.push(AdBreakInfo {
        id: 2,
        presentation_time: secs(42.0),
        duration: Some(secs(30.0)),
        scte35_cmd: None,
        segment_number: 7,
    });
    let m3u8 = render(&state).unwrap();
    assert!(!m3u8.contains("splice-1"), "ad break outside DVR window should be excluded");
    assert!(m3u8.contains("splice-2"), "ad break inside DVR window should be included");
}

#[test]
fn render_dvr_windowed_parts() {
    let mut state = make_live_state_with_segments(10);
    state.dvr_window_duration = Some(secs(30.0)); // segments 5-9 in window
    state.part_target_duration = Some(secs(1.0)); // enable LL-HLS

    // Part in segment 1 (outside window)
    state.parts.push(PartInfo {
        segment_number: 1,
        part_index: 0,
        duration: secs(1.0),
        independent: true,
        uri: "part_1_0.cmfv".into(),
        byte_size: 512,
    });
    // Part in segment 7 (inside window)
    state.parts.push(PartInfo {
        segment_number: 7,
        part_index: 0,
        duration: secs(1.0),
        independent: true,
        uri: "part_7_0.cmfv".into(),
        byte_size: 512,
    });
    let m3u8 = render(&state).unwrap();
    assert!(!m3u8.contains("part_1_0.cmfv"), "part outside DVR window should be excluded");
    assert!(m3u8.contains("part_7_0.cmfv"), "part inside DVR window should be included");
}
