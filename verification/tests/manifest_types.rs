use edgepack::decimal::Decimal;
use edgepack::drm::scheme::EncryptionScheme;
use edgepack::manifest::types::{AdBreakInfo, CeaCaptionInfo, IFrameSegmentInfo, InitSegmentInfo, ManifestDrmInfo, ManifestPhase, ManifestState, OutputFormat, PartInfo, SegmentInfo, TrackMediaType, VariantInfo};
use edgepack::media::container::ContainerFormat;

/// Seconds as the library counts them.
fn secs(x: f64) -> Decimal {
    Decimal { nanos: (x * 1e9).round() as i128 }
}

/// A number of the library as a float.
fn float(d: Decimal) -> f64 {
    d.nanos as f64 / 1e9
}

#[test]
fn output_format_content_type_hls() {
    assert_eq!(OutputFormat::Hls.content_type(), "application/vnd.apple.mpegurl");
}

#[test]
fn output_format_content_type_dash() {
    assert_eq!(OutputFormat::Dash.content_type(), "application/dash+xml");
}

#[test]
fn output_format_manifest_extension_hls() {
    assert_eq!(OutputFormat::Hls.manifest_extension(), "m3u8");
}

#[test]
fn output_format_manifest_extension_dash() {
    assert_eq!(OutputFormat::Dash.manifest_extension(), "mpd");
}

#[test]
fn output_format_equality() {
    assert_eq!(OutputFormat::Hls, OutputFormat::Hls);
    assert_eq!(OutputFormat::Dash, OutputFormat::Dash);
    assert_ne!(OutputFormat::Hls, OutputFormat::Dash);
}

#[test]
fn segment_info_construction() {
    let seg = SegmentInfo {
        number: 5,
        duration: secs(6.006),
        uri: "segment_5.cmfv".to_string(),
        byte_size: 1024,
        key_period: None,
    };
    assert_eq!(seg.number, 5);
    assert!((float(seg.duration) - 6.006).abs() < f64::EPSILON);
    assert_eq!(seg.uri, "segment_5.cmfv");
    assert_eq!(seg.byte_size, 1024);
}

#[test]
fn init_segment_info_construction() {
    let init = InitSegmentInfo {
        uri: "init.mp4".to_string(),
        byte_size: 512,
    };
    assert_eq!(init.uri, "init.mp4");
    assert_eq!(init.byte_size, 512);
}

#[test]
fn variant_info_video() {
    let v = VariantInfo {
        id: "v1".to_string(),
        bandwidth: 2_000_000,
        codecs: "avc1.64001f".to_string(),
        resolution: Some((1920, 1080)),
        frame_rate: Some(secs(30.0)),
        track_type: TrackMediaType::Video,
        language: None,
        segment_path_prefix: None,
    };
    assert_eq!(v.track_type, TrackMediaType::Video);
    assert_eq!(v.resolution, Some((1920, 1080)));
}

#[test]
fn variant_info_audio() {
    let v = VariantInfo {
        id: "a1".to_string(),
        bandwidth: 128_000,
        codecs: "mp4a.40.2".to_string(),
        resolution: None,
        frame_rate: None,
        track_type: TrackMediaType::Audio,
        language: Some("eng".to_string()),
        segment_path_prefix: None,
    };
    assert_eq!(v.track_type, TrackMediaType::Audio);
    assert!(v.resolution.is_none());
    assert_eq!(v.language.as_deref(), Some("eng"));
}

#[test]
fn variant_info_subtitle() {
    let v = VariantInfo {
        id: "sub_eng".to_string(),
        bandwidth: 0,
        codecs: "wvtt".to_string(),
        resolution: None,
        frame_rate: None,
        track_type: TrackMediaType::Subtitle,
        language: Some("eng".to_string()),
        segment_path_prefix: None,
    };
    assert_eq!(v.track_type, TrackMediaType::Subtitle);
    assert_eq!(v.codecs, "wvtt");
    assert_eq!(v.language.as_deref(), Some("eng"));
}

#[test]
fn track_media_type_equality() {
    assert_eq!(TrackMediaType::Video, TrackMediaType::Video);
    assert_eq!(TrackMediaType::Audio, TrackMediaType::Audio);
    assert_eq!(TrackMediaType::Subtitle, TrackMediaType::Subtitle);
    assert_ne!(TrackMediaType::Video, TrackMediaType::Audio);
    assert_ne!(TrackMediaType::Video, TrackMediaType::Subtitle);
    assert_ne!(TrackMediaType::Audio, TrackMediaType::Subtitle);
}

#[test]
fn cea_caption_info_construction() {
    let caption = CeaCaptionInfo {
        service_name: "CC1".to_string(),
        language: "eng".to_string(),
        is_608: true,
    };
    assert_eq!(caption.service_name, "CC1");
    assert_eq!(caption.language, "eng");
    assert!(caption.is_608);
}

#[test]
fn manifest_drm_info_construction() {
    let drm = ManifestDrmInfo {
        encryption_scheme: EncryptionScheme::Cenc,
        widevine_pssh: Some("AAAA".to_string()),
        playready_pssh: Some("BBBB".to_string()),
        playready_pro: None,
        fairplay_key_uri: None,
        default_kid: "0123456789abcdef0123456789abcdef".to_string(),
        clearkey_pssh: None,
    };
    assert_eq!(drm.encryption_scheme, EncryptionScheme::Cenc);
    assert!(drm.widevine_pssh.is_some());
    assert!(drm.playready_pssh.is_some());
    assert!(drm.playready_pro.is_none());
    assert!(drm.fairplay_key_uri.is_none());
    assert_eq!(drm.default_kid.len(), 32);
}

#[test]
fn manifest_phase_values() {
    assert_eq!(ManifestPhase::AwaitingFirstSegment, ManifestPhase::AwaitingFirstSegment);
    assert_eq!(ManifestPhase::Live, ManifestPhase::Live);
    assert_eq!(ManifestPhase::Complete, ManifestPhase::Complete);
    assert_ne!(ManifestPhase::AwaitingFirstSegment, ManifestPhase::Live);
    assert_ne!(ManifestPhase::Live, ManifestPhase::Complete);
}

#[test]
fn manifest_state_new_defaults() {
    let state = ManifestState::new("test-content".into(), OutputFormat::Hls, "/base/".into(), ContainerFormat::default());
    assert_eq!(state.content_id, "test-content");
    assert_eq!(state.format, OutputFormat::Hls);
    assert_eq!(state.phase, ManifestPhase::AwaitingFirstSegment);
    assert!(state.init_segment.is_none());
    assert!(state.segments.is_empty());
    assert!((float(state.target_duration) - 6.0).abs() < f64::EPSILON);
    assert!(state.variants.is_empty());
    assert!(state.drm_info.is_none());
    assert_eq!(state.media_sequence, 0);
    assert_eq!(state.base_url, "/base/");
}

#[test]
fn manifest_state_is_complete() {
    let mut state = ManifestState::new("c".into(), OutputFormat::Dash, "/".into(), ContainerFormat::default());
    assert!(!state.is_complete());

    state.phase = ManifestPhase::Live;
    assert!(!state.is_complete());

    state.phase = ManifestPhase::Complete;
    assert!(state.is_complete());
}

#[test]
fn ad_break_info_construction() {
    let ab = AdBreakInfo {
        id: 42,
        presentation_time: secs(30.0),
        duration: Some(secs(15.0)),
        scte35_cmd: Some("base64data".to_string()),
        segment_number: 5,
    };
    assert_eq!(ab.id, 42);
    assert!((float(ab.presentation_time) - 30.0).abs() < f64::EPSILON);
    assert_eq!(ab.duration, Some(secs(15.0)));
    assert_eq!(ab.segment_number, 5);
}

#[test]
fn manifest_state_rotation_drm_info() {
    let state = ManifestState::new("c".into(), OutputFormat::Hls, "/".into(), ContainerFormat::default());
    assert!(state.rotation_drm_info.is_empty());
    assert!(state.clear_lead_boundary.is_none());
}

#[test]
fn manifest_drm_info_clearkey_pssh() {
    let drm = ManifestDrmInfo {
        encryption_scheme: EncryptionScheme::Cenc,
        widevine_pssh: None,
        playready_pssh: None,
        playready_pro: None,
        fairplay_key_uri: None,
        default_kid: "0123456789abcdef0123456789abcdef".into(),
        clearkey_pssh: Some("CLEARKEY_DATA".into()),
    };
    assert!(drm.clearkey_pssh.is_some());
}

// --- LL-HLS / LL-DASH type tests ---

#[test]
fn part_info_construction() {
    let part = PartInfo {
        segment_number: 2,
        part_index: 1,
        duration: secs(0.33334),
        independent: true,
        uri: "/base/part_2.1.cmfv".to_string(),
        byte_size: 5000,
    };
    assert_eq!(part.segment_number, 2);
    assert_eq!(part.part_index, 1);
    assert!((float(part.duration) - 0.33334).abs() < f64::EPSILON);
    assert!(part.independent);
    assert_eq!(part.byte_size, 5000);
}

#[test]
fn manifest_state_new_ll_defaults() {
    let state = ManifestState::new("c".into(), OutputFormat::Hls, "/".into(), ContainerFormat::default());
    assert!(state.parts.is_empty());
    assert!(state.part_target_duration.is_none());
    assert!(state.server_control.is_none());
    assert!(state.ll_dash_info.is_none());
}

// --- I-Frame / Trick Play type tests ---

#[test]
fn iframe_segment_info_construction() {
    let info = IFrameSegmentInfo {
        segment_number: 3,
        byte_offset: 0,
        byte_length: 32456,
        duration: secs(6.006),
        segment_uri: "segment_3.cmfv".to_string(),
    };
    assert_eq!(info.segment_number, 3);
    assert_eq!(info.byte_offset, 0);
    assert_eq!(info.byte_length, 32456);
    assert!((float(info.duration) - 6.006).abs() < f64::EPSILON);
    assert_eq!(info.segment_uri, "segment_3.cmfv");
}

#[test]
fn manifest_state_new_iframe_defaults() {
    let state = ManifestState::new("c".into(), OutputFormat::Hls, "/".into(), ContainerFormat::default());
    assert!(state.iframe_segments.is_empty());
    assert!(!state.enable_iframe_playlist);
}

// --- DVR Window type tests ---

#[test]
fn manifest_state_new_dvr_defaults() {
    let state = ManifestState::new("c".into(), OutputFormat::Hls, "/".into(), ContainerFormat::default());
    assert!(state.dvr_window_duration.is_none());
    assert!(!state.is_dvr_active());
}

#[test]
fn windowed_segments_no_window_returns_all() {
    let mut state = ManifestState::new("c".into(), OutputFormat::Hls, "/".into(), ContainerFormat::default());
    state.phase = ManifestPhase::Live;
    for i in 0..10 {
        state.segments.push(SegmentInfo {
            number: i,
            duration: secs(6.0),
            uri: format!("segment_{i}.cmfv"),
            byte_size: 1024,
            key_period: None,
        });
    }
    assert_eq!(state.windowed_segments().len(), 10);
}

#[test]
fn windowed_segments_window_smaller_than_total() {
    let mut state = ManifestState::new("c".into(), OutputFormat::Hls, "/".into(), ContainerFormat::default());
    state.phase = ManifestPhase::Live;
    state.dvr_window_duration = Some(secs(30.0));
    for i in 0..10 {
        state.segments.push(SegmentInfo {
            number: i,
            duration: secs(6.0),
            uri: format!("segment_{i}.cmfv"),
            byte_size: 1024,
            key_period: None,
        });
    }
    // 10 segments * 6s = 60s total, window = 30s → last 5 segments
    let windowed = state.windowed_segments();
    assert_eq!(windowed.len(), 5);
    assert_eq!(windowed[0].number, 5);
    assert_eq!(windowed[4].number, 9);
}

#[test]
fn windowed_segments_window_larger_than_total() {
    let mut state = ManifestState::new("c".into(), OutputFormat::Hls, "/".into(), ContainerFormat::default());
    state.phase = ManifestPhase::Live;
    state.dvr_window_duration = Some(secs(3600.0));
    for i in 0..3 {
        state.segments.push(SegmentInfo {
            number: i,
            duration: secs(6.0),
            uri: format!("segment_{i}.cmfv"),
            byte_size: 1024,
            key_period: None,
        });
    }
    // 3 segments * 6s = 18s, window = 3600s → all segments
    assert_eq!(state.windowed_segments().len(), 3);
}

#[test]
fn windowed_segments_complete_phase_ignores_window() {
    let mut state = ManifestState::new("c".into(), OutputFormat::Hls, "/".into(), ContainerFormat::default());
    state.phase = ManifestPhase::Complete;
    state.dvr_window_duration = Some(secs(30.0));
    for i in 0..10 {
        state.segments.push(SegmentInfo {
            number: i,
            duration: secs(6.0),
            uri: format!("segment_{i}.cmfv"),
            byte_size: 1024,
            key_period: None,
        });
    }
    // Complete phase ignores window — returns all segments
    assert_eq!(state.windowed_segments().len(), 10);
}

#[test]
fn windowed_media_sequence() {
    let mut state = ManifestState::new("c".into(), OutputFormat::Hls, "/".into(), ContainerFormat::default());
    state.phase = ManifestPhase::Live;
    state.dvr_window_duration = Some(secs(30.0));
    for i in 0..10 {
        state.segments.push(SegmentInfo {
            number: i,
            duration: secs(6.0),
            uri: format!("segment_{i}.cmfv"),
            byte_size: 1024,
            key_period: None,
        });
    }
    assert_eq!(state.windowed_media_sequence(), 5);
}

#[test]
fn windowed_media_sequence_no_window() {
    let mut state = ManifestState::new("c".into(), OutputFormat::Hls, "/".into(), ContainerFormat::default());
    state.phase = ManifestPhase::Live;
    for i in 0..10 {
        state.segments.push(SegmentInfo {
            number: i,
            duration: secs(6.0),
            uri: format!("segment_{i}.cmfv"),
            byte_size: 1024,
            key_period: None,
        });
    }
    assert_eq!(state.windowed_media_sequence(), 0);
}

#[test]
fn windowed_iframe_segments_filters() {
    let mut state = ManifestState::new("c".into(), OutputFormat::Hls, "/".into(), ContainerFormat::default());
    state.phase = ManifestPhase::Live;
    state.dvr_window_duration = Some(secs(18.0));
    for i in 0..5 {
        state.segments.push(SegmentInfo {
            number: i,
            duration: secs(6.0),
            uri: format!("segment_{i}.cmfv"),
            byte_size: 1024,
            key_period: None,
        });
        state.iframe_segments.push(IFrameSegmentInfo {
            segment_number: i,
            byte_offset: 0,
            byte_length: 500,
            duration: secs(6.0),
            segment_uri: format!("segment_{i}.cmfv"),
        });
    }
    // Window = 18s → last 3 segments (2,3,4)
    let windowed = state.windowed_iframe_segments();
    assert_eq!(windowed.len(), 3);
    assert_eq!(windowed[0].segment_number, 2);
    assert_eq!(windowed[2].segment_number, 4);
}

#[test]
fn windowed_parts_filters() {
    let mut state = ManifestState::new("c".into(), OutputFormat::Hls, "/".into(), ContainerFormat::default());
    state.phase = ManifestPhase::Live;
    state.dvr_window_duration = Some(secs(12.0));
    for i in 0..4 {
        state.segments.push(SegmentInfo {
            number: i,
            duration: secs(6.0),
            uri: format!("segment_{i}.cmfv"),
            byte_size: 1024,
            key_period: None,
        });
        state.parts.push(PartInfo {
            segment_number: i,
            part_index: 0,
            duration: secs(0.33),
            independent: true,
            uri: format!("part_{i}.0.cmfv"),
            byte_size: 100,
        });
    }
    // Window = 12s → last 2 segments (2,3)
    let windowed = state.windowed_parts();
    assert_eq!(windowed.len(), 2);
    assert_eq!(windowed[0].segment_number, 2);
}

#[test]
fn windowed_ad_breaks_filters() {
    let mut state = ManifestState::new("c".into(), OutputFormat::Hls, "/".into(), ContainerFormat::default());
    state.phase = ManifestPhase::Live;
    state.dvr_window_duration = Some(secs(12.0));
    for i in 0..4 {
        state.segments.push(SegmentInfo {
            number: i,
            duration: secs(6.0),
            uri: format!("segment_{i}.cmfv"),
            byte_size: 1024,
            key_period: None,
        });
    }
    state.ad_breaks.push(AdBreakInfo {
        id: 1, presentation_time: secs(6.0), duration: Some(secs(15.0)),
        scte35_cmd: None, segment_number: 1,
    });
    state.ad_breaks.push(AdBreakInfo {
        id: 2, presentation_time: secs(18.0), duration: None,
        scte35_cmd: None, segment_number: 3,
    });
    // Window = 12s → segments 2,3. Ad break at seg 1 excluded, seg 3 included.
    let windowed = state.windowed_ad_breaks();
    assert_eq!(windowed.len(), 1);
    assert_eq!(windowed[0].id, 2);
}

#[test]
fn is_dvr_active_cases() {
    let mut state = ManifestState::new("c".into(), OutputFormat::Hls, "/".into(), ContainerFormat::default());
    assert!(!state.is_dvr_active()); // None, AwaitingFirstSegment

    state.phase = ManifestPhase::Live;
    assert!(!state.is_dvr_active()); // None, Live

    state.dvr_window_duration = Some(secs(30.0));
    assert!(state.is_dvr_active()); // Some(30), Live

    state.phase = ManifestPhase::Complete;
    assert!(!state.is_dvr_active()); // Some(30), Complete
}
