use edgepack::decimal::Decimal;
use edgepack::drm::scheme::EncryptionScheme;
use edgepack::manifest::dash::{format_iso8601_duration, format_kid_with_hyphens, render};
use edgepack::manifest::types::{AdBreakInfo, CeaCaptionInfo, InitSegmentInfo, ManifestDrmInfo, ManifestPhase, ManifestState, OutputFormat, SegmentInfo, TrackMediaType, VariantInfo};
use edgepack::media::container::ContainerFormat;

/// Seconds as the library counts them.
fn secs(x: f64) -> Decimal {
    Decimal { nanos: (x * 1e9).round() as i128 }
}

fn make_state(phase: ManifestPhase) -> ManifestState {
    let mut s = ManifestState::new("content-1".into(), OutputFormat::Dash, "/base/".into(), ContainerFormat::default());
    s.phase = phase;
    s
}

fn make_live_state_with_segments(count: u32) -> ManifestState {
    let mut s = make_state(ManifestPhase::Live);
    s.init_segment = Some(InitSegmentInfo {
        uri: "/base/init.mp4".into(),
        byte_size: 256,
    });
    for i in 0..count {
        s.segments.push(SegmentInfo {
            number: i,
            duration: secs(6.0),
            uri: format!("/base/segment_{i}.cmfv"),
            byte_size: 1024,
            key_period: None,
        });
    }
    s
}

#[test]
fn format_iso8601_duration_zero() {
    assert_eq!(format_iso8601_duration(secs(0.0)), "PT0S");
    assert_eq!(format_iso8601_duration(secs(-1.0)), "PT0S");
}

#[test]
fn format_iso8601_duration_seconds_only() {
    let result = format_iso8601_duration(secs(30.5));
    assert!(result.starts_with("PT"));
    assert!(result.contains("S"));
    assert!(!result.contains("H"));
    assert!(!result.contains("M"));
}

#[test]
fn format_iso8601_duration_minutes_and_seconds() {
    let result = format_iso8601_duration(secs(90.0));
    assert!(result.starts_with("PT"));
    assert!(result.contains("1M"));
    assert!(result.contains("S"));
}

#[test]
fn format_iso8601_duration_hours() {
    let result = format_iso8601_duration(secs(3661.0));
    assert!(result.contains("1H"));
    assert!(result.contains("1M"));
    assert!(result.contains("S"));
}

#[test]
fn format_kid_with_hyphens_valid() {
    let kid = "0123456789abcdef0123456789abcdef";
    let result = format_kid_with_hyphens(kid);
    assert_eq!(result, "01234567-89ab-cdef-0123-456789abcdef");
}

#[test]
fn format_kid_with_hyphens_short() {
    let kid = "0123";
    let result = format_kid_with_hyphens(kid);
    assert_eq!(result, "0123"); // returned unchanged
}

#[test]
fn format_kid_with_hyphens_long() {
    let kid = "0123456789abcdef0123456789abcdef00";
    let result = format_kid_with_hyphens(kid);
    assert_eq!(result, kid); // returned unchanged (34 chars)
}

#[test]
fn dash_render_awaiting_returns_minimal() {
    let state = make_state(ManifestPhase::AwaitingFirstSegment);
    let mpd = render(&state).unwrap();
    assert!(mpd.contains("<?xml"));
    assert!(!mpd.contains("<MPD"));
}

#[test]
fn render_live_dynamic_type() {
    let state = make_live_state_with_segments(2);
    let mpd = render(&state).unwrap();
    assert!(mpd.contains("type=\"dynamic\""));
    assert!(mpd.contains("minimumUpdatePeriod=\"PT1S\""));
    assert!(mpd.contains("availabilityStartTime="));
    assert!(mpd.contains("<Period"));
    assert!(mpd.contains("<AdaptationSet"));
    assert!(mpd.contains("<SegmentTemplate"));
    assert!(mpd.contains("<SegmentTimeline"));
    assert!(mpd.contains("</MPD>"));
}

#[test]
fn render_complete_static_type() {
    let mut state = make_live_state_with_segments(3);
    state.phase = ManifestPhase::Complete;
    let mpd = render(&state).unwrap();
    assert!(mpd.contains("type=\"static\""));
    assert!(mpd.contains("mediaPresentationDuration="));
    assert!(!mpd.contains("minimumUpdatePeriod"));
}

#[test]
fn render_with_drm_content_protection_cenc() {
    let mut state = make_live_state_with_segments(1);
    state.drm_info = Some(ManifestDrmInfo {
        encryption_scheme: EncryptionScheme::Cenc,
        widevine_pssh: Some("WVDATA".into()),
        playready_pssh: Some("PRDATA".into()),
        playready_pro: Some("<pro>data</pro>".into()),
        fairplay_key_uri: None,
        default_kid: "0123456789abcdef0123456789abcdef".into(),
        clearkey_pssh: None,
    });
    let mpd = render(&state).unwrap();
    assert!(mpd.contains("urn:mpeg:dash:mp4protection:2011"));
    assert!(mpd.contains("value=\"cenc\""));
    assert!(mpd.contains("cenc:default_KID=\"01234567-89ab-cdef-0123-456789abcdef\""));
    assert!(mpd.contains("urn:uuid:edef8ba9-79d6-4ace-a3c8-27dcd51d21ed"));
    assert!(mpd.contains("<cenc:pssh>WVDATA</cenc:pssh>"));
    assert!(mpd.contains("urn:uuid:9a04f079-9840-4286-ab92-e65be0885f95"));
    assert!(mpd.contains("<cenc:pssh>PRDATA</cenc:pssh>"));
    assert!(mpd.contains("<mspr:pro><pro>data</pro></mspr:pro>"));
}

#[test]
fn render_with_drm_content_protection_cbcs() {
    let mut state = make_live_state_with_segments(1);
    state.drm_info = Some(ManifestDrmInfo {
        encryption_scheme: EncryptionScheme::Cbcs,
        widevine_pssh: Some("WVDATA".into()),
        playready_pssh: None,
        playready_pro: None,
        fairplay_key_uri: None,
        default_kid: "0123456789abcdef0123456789abcdef".into(),
        clearkey_pssh: None,
    });
    let mpd = render(&state).unwrap();
    assert!(mpd.contains("value=\"cbcs\""));
}

#[test]
fn render_segment_timeline_durations() {
    let state = make_live_state_with_segments(3);
    let mpd = render(&state).unwrap();
    let s_count = mpd.matches("<S d=").count();
    assert_eq!(s_count, 3);
    assert!(mpd.contains("<S d=\"6000\"/>"));
}

#[test]
fn render_with_video_variants() {
    let mut state = make_live_state_with_segments(1);
    state.variants.push(VariantInfo {
        id: "v720".into(),
        bandwidth: 3_000_000,
        codecs: "avc1.64001f".into(),
        resolution: Some((1280, 720)),
        frame_rate: Some(secs(30.0)),
        track_type: TrackMediaType::Video,
        language: None,
        segment_path_prefix: None,
    });
    let mpd = render(&state).unwrap();
    assert!(mpd.contains("contentType=\"video\""));
    assert!(mpd.contains("id=\"v720\""));
    assert!(mpd.contains("bandwidth=\"3000000\""));
    assert!(mpd.contains("codecs=\"avc1.64001f\""));
    assert!(mpd.contains("width=\"1280\""));
    assert!(mpd.contains("height=\"720\""));
}

#[test]
fn render_with_audio_variants() {
    let mut state = make_live_state_with_segments(1);
    state.variants.push(VariantInfo {
        id: "a1".into(),
        bandwidth: 128_000,
        codecs: "mp4a.40.2".into(),
        resolution: None,
        frame_rate: None,
        track_type: TrackMediaType::Audio,
        language: None,
        segment_path_prefix: None,
    });
    let mpd = render(&state).unwrap();
    assert!(mpd.contains("contentType=\"audio\""));
    assert!(mpd.contains("id=\"a1\""));
    assert!(mpd.contains("bandwidth=\"128000\""));
}

#[test]
fn render_default_video_adaptation_set_when_no_variants() {
    let state = make_live_state_with_segments(1);
    let mpd = render(&state).unwrap();
    // Should still have a video AdaptationSet with default representation
    assert!(mpd.contains("contentType=\"video\""));
    assert!(mpd.contains("bandwidth=\"2000000\""));
}

#[test]
fn render_profiles() {
    let state = make_live_state_with_segments(1);
    let mpd = render(&state).unwrap();
    assert!(mpd.contains("urn:mpeg:dash:profile:isoff-live:2011"));
    assert!(mpd.contains("urn:mpeg:dash:profile:cmaf:2019"));
}

#[test]
fn render_namespaces() {
    let state = make_live_state_with_segments(1);
    let mpd = render(&state).unwrap();
    assert!(mpd.contains("xmlns=\"urn:mpeg:dash:schema:mpd:2011\""));
    assert!(mpd.contains("xmlns:cenc=\"urn:mpeg:cenc:2013\""));
    assert!(mpd.contains("xmlns:mspr=\"urn:microsoft:playready\""));
}

#[test]
fn render_with_subtitle_variants() {
    let mut state = make_live_state_with_segments(1);
    state.variants.push(VariantInfo {
        id: "sub_eng".into(),
        bandwidth: 0,
        codecs: "wvtt".into(),
        resolution: None,
        frame_rate: None,
        track_type: TrackMediaType::Subtitle,
        language: Some("eng".into()),
        segment_path_prefix: None,
    });
    let mpd = render(&state).unwrap();
    assert!(mpd.contains("contentType=\"text\""));
    assert!(mpd.contains("mimeType=\"application/mp4\""));
    assert!(mpd.contains("lang=\"eng\""));
    assert!(mpd.contains("id=\"sub_eng\""));
    assert!(mpd.contains("codecs=\"wvtt\""));
}

#[test]
fn render_with_subtitle_stpp() {
    let mut state = make_live_state_with_segments(1);
    state.variants.push(VariantInfo {
        id: "sub_spa".into(),
        bandwidth: 0,
        codecs: "stpp".into(),
        resolution: None,
        frame_rate: None,
        track_type: TrackMediaType::Subtitle,
        language: Some("spa".into()),
        segment_path_prefix: None,
    });
    let mpd = render(&state).unwrap();
    assert!(mpd.contains("contentType=\"text\""));
    assert!(mpd.contains("lang=\"spa\""));
    assert!(mpd.contains("codecs=\"stpp\""));
}

#[test]
fn render_subtitle_no_content_protection() {
    let mut state = make_live_state_with_segments(1);
    state.drm_info = Some(ManifestDrmInfo {
        encryption_scheme: EncryptionScheme::Cenc,
        widevine_pssh: Some("WVDATA".into()),
        playready_pssh: None,
        playready_pro: None,
        fairplay_key_uri: None,
        default_kid: "0123456789abcdef0123456789abcdef".into(),
        clearkey_pssh: None,
    });
    state.variants.push(VariantInfo {
        id: "v1".into(),
        bandwidth: 2_000_000,
        codecs: "avc1.64001f".into(),
        resolution: None,
        frame_rate: None,
        track_type: TrackMediaType::Video,
        language: None,
        segment_path_prefix: None,
    });
    state.variants.push(VariantInfo {
        id: "sub_eng".into(),
        bandwidth: 0,
        codecs: "wvtt".into(),
        resolution: None,
        frame_rate: None,
        track_type: TrackMediaType::Subtitle,
        language: Some("eng".into()),
        segment_path_prefix: None,
    });
    let mpd = render(&state).unwrap();
    // Video AdaptationSet should have ContentProtection
    assert!(mpd.contains("urn:mpeg:dash:mp4protection:2011"));
    // Count schemeIdUri occurrences — should only be in video AdaptationSet
    // (2: mp4protection + Widevine)
    let scheme_count = mpd.matches("schemeIdUri").count();
    assert_eq!(scheme_count, 2, "ContentProtection only in video AdaptationSet");
}

#[test]
fn render_with_cea_608_captions() {
    let mut state = make_live_state_with_segments(1);
    state.cea_captions.push(CeaCaptionInfo {
        service_name: "CC1".into(),
        language: "eng".into(),
        is_608: true,
    });
    let mpd = render(&state).unwrap();
    assert!(mpd.contains("urn:scte:dash:cc:cea-608:2015"));
    assert!(mpd.contains("value=\"CC1=eng\""));
}

#[test]
fn render_with_cea_708_captions() {
    let mut state = make_live_state_with_segments(1);
    state.cea_captions.push(CeaCaptionInfo {
        service_name: "SERVICE1".into(),
        language: "eng".into(),
        is_608: false,
    });
    let mpd = render(&state).unwrap();
    assert!(mpd.contains("urn:scte:dash:cc:cea-708:2015"));
    assert!(mpd.contains("value=\"SERVICE1=eng\""));
}

#[test]
fn render_with_multiple_cea_captions() {
    let mut state = make_live_state_with_segments(1);
    state.cea_captions.push(CeaCaptionInfo {
        service_name: "CC1".into(),
        language: "eng".into(),
        is_608: true,
    });
    state.cea_captions.push(CeaCaptionInfo {
        service_name: "CC3".into(),
        language: "spa".into(),
        is_608: true,
    });
    let mpd = render(&state).unwrap();
    assert_eq!(mpd.matches("Accessibility").count(), 2);
    assert!(mpd.contains("value=\"CC1=eng\""));
    assert!(mpd.contains("value=\"CC3=spa\""));
}

#[test]
fn render_audio_with_language() {
    let mut state = make_live_state_with_segments(1);
    state.variants.push(VariantInfo {
        id: "a1".into(),
        bandwidth: 128_000,
        codecs: "mp4a.40.2".into(),
        resolution: None,
        frame_rate: None,
        track_type: TrackMediaType::Audio,
        language: Some("eng".into()),
        segment_path_prefix: None,
    });
    let mpd = render(&state).unwrap();
    assert!(mpd.contains("contentType=\"audio\""));
    assert!(mpd.contains("lang=\"eng\""));
}

#[test]
fn render_combined_video_audio_subtitle_cea() {
    let mut state = make_live_state_with_segments(1);
    state.variants.push(VariantInfo {
        id: "v1".into(),
        bandwidth: 2_000_000,
        codecs: "avc1.64001f".into(),
        resolution: Some((1280, 720)),
        frame_rate: Some(secs(30.0)),
        track_type: TrackMediaType::Video,
        language: None,
        segment_path_prefix: None,
    });
    state.variants.push(VariantInfo {
        id: "a1".into(),
        bandwidth: 128_000,
        codecs: "mp4a.40.2".into(),
        resolution: None,
        frame_rate: None,
        track_type: TrackMediaType::Audio,
        language: Some("eng".into()),
        segment_path_prefix: None,
    });
    state.variants.push(VariantInfo {
        id: "sub_eng".into(),
        bandwidth: 0,
        codecs: "wvtt".into(),
        resolution: None,
        frame_rate: None,
        track_type: TrackMediaType::Subtitle,
        language: Some("eng".into()),
        segment_path_prefix: None,
    });
    state.cea_captions.push(CeaCaptionInfo {
        service_name: "CC1".into(),
        language: "eng".into(),
        is_608: true,
    });
    let mpd = render(&state).unwrap();
    // Should have all three AdaptationSets
    assert!(mpd.contains("contentType=\"video\""));
    assert!(mpd.contains("contentType=\"audio\""));
    assert!(mpd.contains("contentType=\"text\""));
    // CEA inside video AdaptationSet
    assert!(mpd.contains("urn:scte:dash:cc:cea-608:2015"));
    // Count AdaptationSet elements
    assert_eq!(mpd.matches("<AdaptationSet").count(), 3);
}

// --- SCTE-35 EventStream tests ---

#[test]
fn render_with_ad_break_event_stream() {
    let mut state = make_live_state_with_segments(3);
    state.ad_breaks.push(AdBreakInfo {
        id: 42,
        presentation_time: secs(12.0),
        duration: Some(secs(30.0)),
        scte35_cmd: None,
        segment_number: 2,
    });
    let mpd = render(&state).unwrap();
    assert!(mpd.contains("<EventStream schemeIdUri=\"urn:scte:scte35:2013:bin\" timescale=\"90000\">"));
    assert!(mpd.contains("id=\"42\""));
    // 12s * 90000 = 1080000
    assert!(mpd.contains("presentationTime=\"1080000\""));
    // 30s * 90000 = 2700000
    assert!(mpd.contains("duration=\"2700000\""));
}

#[test]
fn dash_render_with_ad_break_scte35_cmd() {
    let mut state = make_live_state_with_segments(1);
    state.ad_breaks.push(AdBreakInfo {
        id: 1,
        presentation_time: secs(0.0),
        duration: None,
        scte35_cmd: Some("AABBCC".to_string()),
        segment_number: 0,
    });
    let mpd = render(&state).unwrap();
    assert!(mpd.contains(">AABBCC</Event>"));
}

#[test]
fn render_no_ad_breaks_no_event_stream() {
    let state = make_live_state_with_segments(2);
    let mpd = render(&state).unwrap();
    assert!(!mpd.contains("EventStream"));
}

#[test]
fn render_multiple_ad_breaks_single_event_stream() {
    let mut state = make_live_state_with_segments(3);
    state.ad_breaks.push(AdBreakInfo {
        id: 1,
        presentation_time: secs(6.0),
        duration: Some(secs(15.0)),
        scte35_cmd: None,
        segment_number: 1,
    });
    state.ad_breaks.push(AdBreakInfo {
        id: 2,
        presentation_time: secs(12.0),
        duration: Some(secs(30.0)),
        scte35_cmd: None,
        segment_number: 2,
    });
    let mpd = render(&state).unwrap();
    // One EventStream with two Events
    assert_eq!(mpd.matches("<EventStream").count(), 1);
    assert_eq!(mpd.matches("<Event ").count(), 2);
}

#[test]
fn render_ad_break_no_duration() {
    let mut state = make_live_state_with_segments(1);
    state.ad_breaks.push(AdBreakInfo {
        id: 1,
        presentation_time: secs(0.0),
        duration: None,
        scte35_cmd: None,
        segment_number: 0,
    });
    let mpd = render(&state).unwrap();
    assert!(mpd.contains("duration=\"0\""));
}

#[test]
fn render_ad_break_event_stream_in_period() {
    let mut state = make_live_state_with_segments(1);
    state.ad_breaks.push(AdBreakInfo {
        id: 1,
        presentation_time: secs(0.0),
        duration: Some(secs(15.0)),
        scte35_cmd: None,
        segment_number: 0,
    });
    let mpd = render(&state).unwrap();
    // EventStream should be inside Period, before AdaptationSet
    let event_stream_pos = mpd.find("<EventStream").unwrap();
    let adaptation_set_pos = mpd.find("<AdaptationSet").unwrap();
    let period_pos = mpd.find("<Period").unwrap();
    assert!(event_stream_pos > period_pos);
    assert!(event_stream_pos < adaptation_set_pos);
}

// --- LL-DASH rendering tests ---

#[test]
fn render_ll_dash_availability_time_offset() {
    let mut state = make_live_state_with_segments(2);
    state.ll_dash_info = Some(edgepack::manifest::types::LowLatencyDashInfo {
        availability_time_offset: secs(5.0),
        availability_time_complete: false,
    });
    let mpd = render(&state).unwrap();
    assert!(mpd.contains("availabilityTimeOffset=\"5.000\""));
    assert!(mpd.contains("availabilityTimeComplete=\"false\""));
}

#[test]
fn render_ll_dash_atc_true_not_emitted() {
    let mut state = make_live_state_with_segments(1);
    state.ll_dash_info = Some(edgepack::manifest::types::LowLatencyDashInfo {
        availability_time_offset: secs(3.5),
        availability_time_complete: true,
    });
    let mpd = render(&state).unwrap();
    assert!(mpd.contains("availabilityTimeOffset=\"3.500\""));
    // When ATC is true (default), it should NOT be emitted
    assert!(!mpd.contains("availabilityTimeComplete"));
}

#[test]
fn render_no_ll_dash_backward_compat() {
    let state = make_live_state_with_segments(2);
    let mpd = render(&state).unwrap();
    assert!(!mpd.contains("availabilityTimeOffset"));
    assert!(!mpd.contains("availabilityTimeComplete"));
}

#[test]
fn render_with_clearkey_content_protection() {
    let mut state = make_live_state_with_segments(1);
    state.drm_info = Some(ManifestDrmInfo {
        encryption_scheme: EncryptionScheme::Cenc,
        widevine_pssh: None,
        playready_pssh: None,
        playready_pro: None,
        fairplay_key_uri: None,
        default_kid: "0123456789abcdef0123456789abcdef".into(),
        clearkey_pssh: Some("CKDATA".into()),
    });
    let mpd = render(&state).unwrap();
    assert!(mpd.contains("urn:uuid:e2719d58-a985-b3c9-781a-b030af78d30e"));
    assert!(mpd.contains("<cenc:pssh>CKDATA</cenc:pssh>"));
}
