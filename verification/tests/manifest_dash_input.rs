use edgepack::decimal::Decimal;
use edgepack::drm::scheme::EncryptionScheme;
use edgepack::manifest::dash_input::{parse_byte_range, parse_dash_manifest, parse_iso8601_duration};

/// A number of the library as a float.
fn float(d: Decimal) -> f64 {
    d.nanos as f64 / 1e9
}

const BASE_URL: &str = "https://cdn.example.com/content/manifest.mpd";

fn minimal_static_mpd() -> String {
    r#"<?xml version="1.0" encoding="UTF-8"?>
<MPD type="static" mediaPresentationDuration="PT18.018S">
  <Period>
<AdaptationSet mimeType="video/mp4">
  <Representation bandwidth="5000000">
    <SegmentTemplate initialization="init.mp4" media="segment_$Number$.cmfv" startNumber="0" timescale="90000">
      <SegmentTimeline>
        <S d="540540" r="2"/>
      </SegmentTimeline>
    </SegmentTemplate>
  </Representation>
</AdaptationSet>
  </Period>
</MPD>"#.to_string()
}

#[test]
fn parse_minimal_static_mpd() {
    let result = parse_dash_manifest(&minimal_static_mpd(), BASE_URL).unwrap();
    assert!(!result.is_live);
    assert_eq!(
        result.init_segment_url,
        "https://cdn.example.com/content/init.mp4"
    );
    assert_eq!(result.segment_urls.len(), 3); // r=2 means 3 segments
    assert_eq!(result.segment_durations.len(), 3);
}

#[test]
fn parse_segment_durations_from_timeline() {
    let result = parse_dash_manifest(&minimal_static_mpd(), BASE_URL).unwrap();
    // 540540 / 90000 = 6.006 seconds
    for dur in &result.segment_durations {
        assert!((float(*dur) - 6.006).abs() < 0.001);
    }
}

#[test]
fn parse_segment_urls_with_number_substitution() {
    let result = parse_dash_manifest(&minimal_static_mpd(), BASE_URL).unwrap();
    assert_eq!(
        result.segment_urls[0],
        "https://cdn.example.com/content/segment_0.cmfv"
    );
    assert_eq!(
        result.segment_urls[1],
        "https://cdn.example.com/content/segment_1.cmfv"
    );
    assert_eq!(
        result.segment_urls[2],
        "https://cdn.example.com/content/segment_2.cmfv"
    );
}

#[test]
fn parse_dynamic_mpd_is_live() {
    let mpd = r#"<?xml version="1.0"?>
<MPD type="dynamic">
  <Period>
<AdaptationSet>
  <Representation>
    <SegmentTemplate initialization="init.mp4" media="seg_$Number$.cmfv" timescale="1000">
      <SegmentTimeline>
        <S d="6000"/>
      </SegmentTimeline>
    </SegmentTemplate>
  </Representation>
</AdaptationSet>
  </Period>
</MPD>"#;
    let result = parse_dash_manifest(mpd, BASE_URL).unwrap();
    assert!(result.is_live);
}

#[test]
fn parse_start_number_nonzero() {
    let mpd = r#"<?xml version="1.0"?>
<MPD type="static" mediaPresentationDuration="PT12S">
  <Period>
<AdaptationSet>
  <Representation>
    <SegmentTemplate initialization="init.mp4" media="seg_$Number$.cmfv" startNumber="5" timescale="1000">
      <SegmentTimeline>
        <S d="6000" r="1"/>
      </SegmentTimeline>
    </SegmentTemplate>
  </Representation>
</AdaptationSet>
  </Period>
</MPD>"#;
    let result = parse_dash_manifest(mpd, BASE_URL).unwrap();
    assert_eq!(result.segment_urls.len(), 2);
    assert!(result.segment_urls[0].contains("seg_5"));
    assert!(result.segment_urls[1].contains("seg_6"));
}

#[test]
fn parse_multiple_timeline_entries() {
    let mpd = r#"<?xml version="1.0"?>
<MPD type="static" mediaPresentationDuration="PT18S">
  <Period>
<AdaptationSet>
  <Representation>
    <SegmentTemplate initialization="init.mp4" media="seg_$Number$.cmfv" timescale="1000" startNumber="0">
      <SegmentTimeline>
        <S d="6000" r="1"/>
        <S d="3000" r="1"/>
      </SegmentTimeline>
    </SegmentTemplate>
  </Representation>
</AdaptationSet>
  </Period>
</MPD>"#;
    let result = parse_dash_manifest(mpd, BASE_URL).unwrap();
    assert_eq!(result.segment_urls.len(), 4); // 2 + 2
    assert!((float(result.segment_durations[0]) - 6.0).abs() < 0.001);
    assert!((float(result.segment_durations[1]) - 6.0).abs() < 0.001);
    assert!((float(result.segment_durations[2]) - 3.0).abs() < 0.001);
    assert!((float(result.segment_durations[3]) - 3.0).abs() < 0.001);
}

#[test]
fn parse_missing_segment_template_and_base_returns_error() {
    let mpd = r#"<?xml version="1.0"?>
<MPD type="static">
  <Period>
<AdaptationSet>
  <Representation bandwidth="1000000"/>
</AdaptationSet>
  </Period>
</MPD>"#;
    let result = parse_dash_manifest(mpd, BASE_URL);
    assert!(result.is_err());
    let err = result.unwrap_err().to_string();
    assert!(err.contains("SegmentTemplate"));
    assert!(err.contains("SegmentBase"));
}

#[test]
fn parse_missing_initialization_returns_error() {
    let mpd = r#"<?xml version="1.0"?>
<MPD type="static">
  <Period>
<AdaptationSet>
  <Representation>
    <SegmentTemplate media="seg_$Number$.cmfv" timescale="1000">
      <SegmentTimeline>
        <S d="6000"/>
      </SegmentTimeline>
    </SegmentTemplate>
  </Representation>
</AdaptationSet>
  </Period>
</MPD>"#;
    let result = parse_dash_manifest(mpd, BASE_URL);
    assert!(result.is_err());
    let err = result.unwrap_err().to_string();
    assert!(err.contains("initialization"));
}

#[test]
fn dash_input_parse_invalid_manifest_url() {
    let result = parse_dash_manifest(&minimal_static_mpd(), "not-a-url");
    assert!(result.is_err());
    let err = result.unwrap_err().to_string();
    assert!(err.contains("invalid manifest URL"));
}

#[test]
fn parse_uniform_duration_mode() {
    let mpd = r#"<?xml version="1.0"?>
<MPD type="static" mediaPresentationDuration="PT12.012S">
  <Period>
<AdaptationSet>
  <Representation>
    <SegmentTemplate initialization="init.mp4" media="seg_$Number$.cmfv" duration="6006" timescale="1000" startNumber="0"/>
  </Representation>
</AdaptationSet>
  </Period>
</MPD>"#;
    let result = parse_dash_manifest(mpd, BASE_URL).unwrap();
    assert_eq!(result.segment_urls.len(), 2);
    assert!((float(result.segment_durations[0]) - 6.006).abs() < 0.001);
    assert!((float(result.segment_durations[1]) - 6.006).abs() < 0.001);
}

#[test]
fn parse_detects_cenc_from_content_protection() {
    let mpd = r#"<?xml version="1.0"?>
<MPD type="static" mediaPresentationDuration="PT12S">
  <Period>
<AdaptationSet>
  <ContentProtection schemeIdUri="urn:mpeg:dash:mp4protection:2011" value="cenc"/>
  <ContentProtection schemeIdUri="urn:uuid:edef8ba9-79d6-4ace-a3c8-27dcd51d21ed"/>
  <Representation>
    <SegmentTemplate initialization="init.mp4" media="seg_$Number$.cmfv" timescale="1000">
      <SegmentTimeline>
        <S d="6000" r="1"/>
      </SegmentTimeline>
    </SegmentTemplate>
  </Representation>
</AdaptationSet>
  </Period>
</MPD>"#;
    let result = parse_dash_manifest(mpd, BASE_URL).unwrap();
    assert_eq!(result.source_scheme, Some(EncryptionScheme::Cenc));
}

#[test]
fn parse_detects_cbcs_from_content_protection() {
    let mpd = r#"<?xml version="1.0"?>
<MPD type="static" mediaPresentationDuration="PT12S">
  <Period>
<AdaptationSet>
  <ContentProtection schemeIdUri="urn:mpeg:dash:mp4protection:2011" value="cbcs"/>
  <Representation>
    <SegmentTemplate initialization="init.mp4" media="seg_$Number$.cmfv" timescale="1000">
      <SegmentTimeline>
        <S d="6000" r="1"/>
      </SegmentTimeline>
    </SegmentTemplate>
  </Representation>
</AdaptationSet>
  </Period>
</MPD>"#;
    let result = parse_dash_manifest(mpd, BASE_URL).unwrap();
    assert_eq!(result.source_scheme, Some(EncryptionScheme::Cbcs));
}

#[test]
fn parse_no_content_protection_source_scheme_is_none() {
    let result = parse_dash_manifest(&minimal_static_mpd(), BASE_URL).unwrap();
    assert_eq!(result.source_scheme, None);
}

#[test]
fn parse_ignores_non_mp4protection_content_protection() {
    let mpd = r#"<?xml version="1.0"?>
<MPD type="static" mediaPresentationDuration="PT12S">
  <Period>
<AdaptationSet>
  <ContentProtection schemeIdUri="urn:uuid:edef8ba9-79d6-4ace-a3c8-27dcd51d21ed" value="Widevine"/>
  <Representation>
    <SegmentTemplate initialization="init.mp4" media="seg_$Number$.cmfv" timescale="1000">
      <SegmentTimeline>
        <S d="6000" r="1"/>
      </SegmentTimeline>
    </SegmentTemplate>
  </Representation>
</AdaptationSet>
  </Period>
</MPD>"#;
    let result = parse_dash_manifest(mpd, BASE_URL).unwrap();
    assert_eq!(result.source_scheme, None);
}

#[test]
fn parse_event_stream_with_scte35() {
    let mpd = r#"<?xml version="1.0"?>
<MPD type="static" mediaPresentationDuration="PT18S">
  <Period>
<EventStream schemeIdUri="urn:scte:scte35:2013:bin" timescale="90000">
  <Event presentationTime="540540" duration="2700000" id="42">AQIDBA==</Event>
</EventStream>
<AdaptationSet>
  <Representation>
    <SegmentTemplate initialization="init.mp4" media="seg_$Number$.cmfv" timescale="1000" startNumber="0">
      <SegmentTimeline>
        <S d="6000" r="2"/>
      </SegmentTimeline>
    </SegmentTemplate>
  </Representation>
</AdaptationSet>
  </Period>
</MPD>"#;
    let result = parse_dash_manifest(mpd, BASE_URL).unwrap();
    assert_eq!(result.ad_breaks.len(), 1);
    let ab = &result.ad_breaks[0];
    assert_eq!(ab.id, 42);
    // 540540 / 90000 = 6.006
    assert!((float(ab.presentation_time) - 6.006).abs() < 0.001);
    // 2700000 / 90000 = 30.0
    assert!((float(ab.duration.unwrap()) - 30.0).abs() < 0.001);
    assert_eq!(ab.scte35_cmd.as_deref(), Some("AQIDBA=="));
}

#[test]
fn parse_event_stream_empty_event() {
    let mpd = r#"<?xml version="1.0"?>
<MPD type="static" mediaPresentationDuration="PT12S">
  <Period>
<EventStream schemeIdUri="urn:scte:scte35:2013:bin" timescale="90000">
  <Event presentationTime="0" duration="900000" id="1"/>
</EventStream>
<AdaptationSet>
  <Representation>
    <SegmentTemplate initialization="init.mp4" media="seg_$Number$.cmfv" timescale="1000" startNumber="0">
      <SegmentTimeline>
        <S d="6000" r="1"/>
      </SegmentTimeline>
    </SegmentTemplate>
  </Representation>
</AdaptationSet>
  </Period>
</MPD>"#;
    let result = parse_dash_manifest(mpd, BASE_URL).unwrap();
    assert_eq!(result.ad_breaks.len(), 1);
    let ab = &result.ad_breaks[0];
    assert_eq!(ab.id, 1);
    assert!((float(ab.presentation_time) - 0.0).abs() < 0.001);
    assert!((float(ab.duration.unwrap()) - 10.0).abs() < 0.001);
    assert!(ab.scte35_cmd.is_none());
}

#[test]
fn parse_no_event_stream_empty_ad_breaks() {
    let result = parse_dash_manifest(&minimal_static_mpd(), BASE_URL).unwrap();
    assert!(result.ad_breaks.is_empty());
}

#[test]
fn parse_non_scte35_event_stream_ignored() {
    let mpd = r#"<?xml version="1.0"?>
<MPD type="static" mediaPresentationDuration="PT12S">
  <Period>
<EventStream schemeIdUri="urn:mpeg:dash:event:2012" timescale="1000">
  <Event presentationTime="0" duration="1000" id="1">some data</Event>
</EventStream>
<AdaptationSet>
  <Representation>
    <SegmentTemplate initialization="init.mp4" media="seg_$Number$.cmfv" timescale="1000" startNumber="0">
      <SegmentTimeline>
        <S d="6000" r="1"/>
      </SegmentTimeline>
    </SegmentTemplate>
  </Representation>
</AdaptationSet>
  </Period>
</MPD>"#;
    let result = parse_dash_manifest(mpd, BASE_URL).unwrap();
    assert!(result.ad_breaks.is_empty());
}

#[test]
fn parse_iso8601_duration_full() {
    assert!((float(parse_iso8601_duration("PT1H30M0S").unwrap()) - 5400.0).abs() < 0.001);
}

#[test]
fn parse_iso8601_duration_minutes_seconds() {
    assert!((float(parse_iso8601_duration("PT2M30S").unwrap()) - 150.0).abs() < 0.001);
}

#[test]
fn parse_iso8601_duration_seconds_only() {
    assert!((float(parse_iso8601_duration("PT18.018S").unwrap()) - 18.018).abs() < 0.001);
}

#[test]
fn parse_iso8601_duration_invalid() {
    assert!(parse_iso8601_duration("invalid").is_none());
    assert!(parse_iso8601_duration("P1D").is_none()); // days not supported
}

// --- LL-DASH parsing tests ---

#[test]
fn parse_availability_time_offset() {
    let mpd = r#"<?xml version="1.0"?>
<MPD type="dynamic">
  <Period>
<AdaptationSet>
  <Representation>
    <SegmentTemplate initialization="init.mp4" media="seg_$Number$.cmfv" timescale="1000" availabilityTimeOffset="5.0" availabilityTimeComplete="false">
      <SegmentTimeline>
        <S d="6000"/>
      </SegmentTimeline>
    </SegmentTemplate>
  </Representation>
</AdaptationSet>
  </Period>
</MPD>"#;
    let result = parse_dash_manifest(mpd, BASE_URL).unwrap();
    let ll = result.ll_dash_info.unwrap();
    assert!((float(ll.availability_time_offset) - 5.0).abs() < 0.001);
    assert!(!ll.availability_time_complete);
}

#[test]
fn parse_availability_time_complete_true() {
    let mpd = r#"<?xml version="1.0"?>
<MPD type="dynamic">
  <Period>
<AdaptationSet>
  <Representation>
    <SegmentTemplate initialization="init.mp4" media="seg_$Number$.cmfv" timescale="1000" availabilityTimeOffset="2.5" availabilityTimeComplete="true">
      <SegmentTimeline>
        <S d="6000"/>
      </SegmentTimeline>
    </SegmentTemplate>
  </Representation>
</AdaptationSet>
  </Period>
</MPD>"#;
    let result = parse_dash_manifest(mpd, BASE_URL).unwrap();
    let ll = result.ll_dash_info.unwrap();
    assert!((float(ll.availability_time_offset) - 2.5).abs() < 0.001);
    assert!(ll.availability_time_complete);
}

#[test]
fn parse_no_ll_dash_attributes_backward_compat() {
    let result = parse_dash_manifest(&minimal_static_mpd(), BASE_URL).unwrap();
    assert!(result.ll_dash_info.is_none());
}

// --- Content steering tests ---

#[test]
fn parse_content_steering_full() {
    let mpd = r#"<?xml version="1.0"?>
<MPD type="static" mediaPresentationDuration="PT18.018S">
  <ContentSteering proxyServerURL="https://steer.example.com/v1" defaultServiceLocation="cdn-a" queryBeforeStart="true"/>
  <Period>
<AdaptationSet>
  <Representation>
    <SegmentTemplate initialization="init.mp4" media="seg_$Number$.cmfv" timescale="90000">
      <SegmentTimeline>
        <S d="540540" r="2"/>
      </SegmentTimeline>
    </SegmentTemplate>
  </Representation>
</AdaptationSet>
  </Period>
</MPD>"#;
    let result = parse_dash_manifest(mpd, BASE_URL).unwrap();
    let cs = result.content_steering.unwrap();
    assert_eq!(cs.server_uri, "https://steer.example.com/v1");
    assert_eq!(cs.default_pathway_id.as_deref(), Some("cdn-a"));
    assert_eq!(cs.query_before_start, Some(true));
}

#[test]
fn parse_content_steering_minimal() {
    let mpd = r#"<?xml version="1.0"?>
<MPD type="static" mediaPresentationDuration="PT18.018S">
  <ContentSteering proxyServerURL="https://steer.example.com/v1"/>
  <Period>
<AdaptationSet>
  <Representation>
    <SegmentTemplate initialization="init.mp4" media="seg_$Number$.cmfv" timescale="90000">
      <SegmentTimeline>
        <S d="540540" r="2"/>
      </SegmentTimeline>
    </SegmentTemplate>
  </Representation>
</AdaptationSet>
  </Period>
</MPD>"#;
    let result = parse_dash_manifest(mpd, BASE_URL).unwrap();
    let cs = result.content_steering.unwrap();
    assert_eq!(cs.server_uri, "https://steer.example.com/v1");
    assert!(cs.default_pathway_id.is_none());
    assert!(cs.query_before_start.is_none());
}

#[test]
fn parse_no_content_steering_backward_compat() {
    let result = parse_dash_manifest(&minimal_static_mpd(), BASE_URL).unwrap();
    assert!(result.content_steering.is_none());
}

// --- SegmentBase (on-demand profile) tests ---

#[test]
fn parse_segment_base_basic() {
    let mpd = r#"<?xml version="1.0"?>
<MPD type="static" mediaPresentationDuration="PT10M34.533S">
  <Period>
<AdaptationSet contentType="video" mimeType="video/mp4">
  <Representation id="0" bandwidth="120158" codecs="avc1.42c01e" mimeType="video/mp4" width="256" height="144">
    <BaseURL>v-0144p-0100k-libx264.mp4</BaseURL>
    <SegmentBase indexRange="823-1982" timescale="15360">
      <Initialization range="0-822"/>
    </SegmentBase>
  </Representation>
</AdaptationSet>
  </Period>
</MPD>"#;
    let result = parse_dash_manifest(mpd, BASE_URL).unwrap();

    // Should have SegmentBase info for sidx resolution
    assert!(result.segment_base.is_some());
    let sb = result.segment_base.unwrap();
    assert_eq!(sb.file_url, "https://cdn.example.com/content/v-0144p-0100k-libx264.mp4");
    assert_eq!(sb.init_range, (0, 822));
    assert_eq!(sb.index_range, (823, 1982));
    assert_eq!(sb.timescale, 15360);

    // Init byte range should be set
    assert_eq!(result.init_byte_range, Some((0, 822)));

    // Init URL points to the same file
    assert_eq!(result.init_segment_url, sb.file_url);

    // Segments are empty — need sidx resolution
    assert!(result.segment_urls.is_empty());
    assert!(result.segment_durations.is_empty());
}

#[test]
fn parse_segment_base_with_absolute_base_url() {
    let mpd = r#"<?xml version="1.0"?>
<MPD type="static" mediaPresentationDuration="PT60S">
  <Period>
<AdaptationSet contentType="video" mimeType="video/mp4">
  <Representation id="1" bandwidth="500000">
    <BaseURL>https://other-cdn.example.com/video.mp4</BaseURL>
    <SegmentBase indexRange="1000-2000" timescale="90000">
      <Initialization range="0-999"/>
    </SegmentBase>
  </Representation>
</AdaptationSet>
  </Period>
</MPD>"#;
    let result = parse_dash_manifest(mpd, BASE_URL).unwrap();
    let sb = result.segment_base.unwrap();
    assert_eq!(sb.file_url, "https://other-cdn.example.com/video.mp4");
    assert_eq!(sb.init_range, (0, 999));
    assert_eq!(sb.index_range, (1000, 2000));
}

#[test]
fn parse_segment_base_multiple_representations_picks_first() {
    let mpd = r#"<?xml version="1.0"?>
<MPD type="static" mediaPresentationDuration="PT60S">
  <Period>
<AdaptationSet contentType="video" mimeType="video/mp4">
  <Representation id="0" bandwidth="100000">
    <BaseURL>low.mp4</BaseURL>
    <SegmentBase indexRange="100-200" timescale="10000">
      <Initialization range="0-99"/>
    </SegmentBase>
  </Representation>
  <Representation id="1" bandwidth="500000">
    <BaseURL>high.mp4</BaseURL>
    <SegmentBase indexRange="500-1000" timescale="10000">
      <Initialization range="0-499"/>
    </SegmentBase>
  </Representation>
</AdaptationSet>
  </Period>
</MPD>"#;
    let result = parse_dash_manifest(mpd, BASE_URL).unwrap();
    let sb = result.segment_base.unwrap();
    // Should pick the first representation
    assert!(sb.file_url.contains("low.mp4"));
    assert_eq!(sb.index_range, (100, 200));
}

#[test]
fn parse_segment_base_backward_compat_fields() {
    let mpd = r#"<?xml version="1.0"?>
<MPD type="static" mediaPresentationDuration="PT60S">
  <Period>
<AdaptationSet contentType="video" mimeType="video/mp4">
  <Representation id="0" bandwidth="100000">
    <BaseURL>video.mp4</BaseURL>
    <SegmentBase indexRange="100-200" timescale="10000">
      <Initialization range="0-99"/>
    </SegmentBase>
  </Representation>
</AdaptationSet>
  </Period>
</MPD>"#;
    let result = parse_dash_manifest(mpd, BASE_URL).unwrap();
    // Standard fields should have sensible defaults
    assert!(!result.is_live);
    assert!(result.source_scheme.is_none());
    assert!(result.ad_breaks.is_empty());
    assert!(!result.is_ts_source);
}

#[test]
fn parse_segment_template_preferred_over_segment_base() {
    // If a manifest has both SegmentTemplate and SegmentBase,
    // SegmentTemplate should win (it's the more common pattern)
    let mpd = r#"<?xml version="1.0"?>
<MPD type="static" mediaPresentationDuration="PT12S">
  <Period>
<AdaptationSet contentType="video" mimeType="video/mp4">
  <SegmentTemplate initialization="init.mp4" media="seg_$Number$.cmfv" timescale="1000" startNumber="0">
    <SegmentTimeline>
      <S d="6000" r="1"/>
    </SegmentTimeline>
  </SegmentTemplate>
  <Representation id="0" bandwidth="100000">
    <BaseURL>video.mp4</BaseURL>
    <SegmentBase indexRange="100-200" timescale="10000">
      <Initialization range="0-99"/>
    </SegmentBase>
  </Representation>
</AdaptationSet>
  </Period>
</MPD>"#;
    let result = parse_dash_manifest(mpd, BASE_URL).unwrap();
    // Should use SegmentTemplate path, not SegmentBase
    assert!(result.segment_base.is_none());
    assert_eq!(result.segment_urls.len(), 2);
}

#[test]
fn parse_byte_range_valid() {
    assert_eq!(parse_byte_range("0-822"), Some((0, 822)));
    assert_eq!(parse_byte_range("823-1982"), Some((823, 1982)));
    assert_eq!(parse_byte_range("0-0"), Some((0, 0)));
}

#[test]
fn parse_byte_range_invalid() {
    assert_eq!(parse_byte_range("invalid"), None);
    assert_eq!(parse_byte_range(""), None);
    assert_eq!(parse_byte_range("0"), None);
    assert_eq!(parse_byte_range("0-abc"), None);
}

// ──────────────────────────────────────────────────────────────────
// Video-preference tests: ensure the parser selects the video
// AdaptationSet's SegmentTemplate data, not audio, regardless of
// element ordering in the MPD.
// ──────────────────────────────────────────────────────────────────

#[test]
fn parse_video_first_audio_second_selects_video_template() {
    // Video AdaptationSet appears before audio — should use video templates
    let mpd = r#"<?xml version="1.0"?>
<MPD type="static" mediaPresentationDuration="PT12S">
  <Period>
<AdaptationSet contentType="video" mimeType="video/mp4">
  <SegmentTemplate initialization="video_init.mp4" media="video_$Number$.cmfv" timescale="1000" startNumber="0">
    <SegmentTimeline>
      <S d="6000" r="1"/>
    </SegmentTimeline>
  </SegmentTemplate>
  <Representation id="v0" bandwidth="2000000"/>
</AdaptationSet>
<AdaptationSet contentType="audio" mimeType="audio/mp4">
  <SegmentTemplate initialization="audio_init.mp4" media="audio_$Number$.m4a" timescale="48000" startNumber="0">
    <SegmentTimeline>
      <S d="240000" r="1"/>
    </SegmentTimeline>
  </SegmentTemplate>
  <Representation id="a0" bandwidth="128000"/>
</AdaptationSet>
  </Period>
</MPD>"#;
    let result = parse_dash_manifest(mpd, BASE_URL).unwrap();
    // Should use video init and media templates
    assert!(result.init_segment_url.contains("video_init"));
    assert!(result.segment_urls[0].contains("video_0"));
    assert_eq!(result.segment_urls.len(), 2);
    // Duration should be from video timeline: 6000/1000 = 6.0s
    assert!((float(result.segment_durations[0]) - 6.0).abs() < 0.001);
}

#[test]
fn parse_audio_first_video_second_selects_video_template() {
    // Audio AdaptationSet appears BEFORE video — should still use video templates
    let mpd = r#"<?xml version="1.0"?>
<MPD type="static" mediaPresentationDuration="PT12S">
  <Period>
<AdaptationSet contentType="audio" mimeType="audio/mp4">
  <SegmentTemplate initialization="audio_init.mp4" media="audio_$Number$.m4a" timescale="48000" startNumber="0">
    <SegmentTimeline>
      <S d="240000" r="1"/>
    </SegmentTimeline>
  </SegmentTemplate>
  <Representation id="a0" bandwidth="128000"/>
</AdaptationSet>
<AdaptationSet contentType="video" mimeType="video/mp4">
  <SegmentTemplate initialization="video_init.mp4" media="video_$Number$.cmfv" timescale="1000" startNumber="0">
    <SegmentTimeline>
      <S d="6000" r="1"/>
    </SegmentTimeline>
  </SegmentTemplate>
  <Representation id="v0" bandwidth="2000000"/>
</AdaptationSet>
  </Period>
</MPD>"#;
    let result = parse_dash_manifest(mpd, BASE_URL).unwrap();
    // Even though audio appears first, should use video init and media templates
    assert!(result.init_segment_url.contains("video_init"));
    assert!(result.segment_urls[0].contains("video_0"));
    assert_eq!(result.segment_urls.len(), 2);
    // Duration should be from video timeline: 6000/1000 = 6.0s (not 240000/48000 = 5.0s)
    assert!((float(result.segment_durations[0]) - 6.0).abs() < 0.001);
}

#[test]
fn parse_no_content_type_fallback_to_mime_type() {
    // AdaptationSet without contentType, only mimeType on Representation
    let mpd = r#"<?xml version="1.0"?>
<MPD type="static" mediaPresentationDuration="PT18S">
  <Period>
<AdaptationSet segmentAlignment="true">
  <Representation mimeType="audio/mp4" bandwidth="128000">
    <SegmentTemplate initialization="audio_init.mp4" media="audio_$Number$.m4a" timescale="48000" startNumber="0">
      <SegmentTimeline>
        <S d="240000" r="2"/>
      </SegmentTimeline>
    </SegmentTemplate>
  </Representation>
</AdaptationSet>
<AdaptationSet segmentAlignment="true">
  <Representation mimeType="video/mp4" bandwidth="2000000">
    <SegmentTemplate initialization="video_init.mp4" media="video_$Number$.cmfv" timescale="1000" startNumber="0">
      <SegmentTimeline>
        <S d="6000" r="2"/>
      </SegmentTimeline>
    </SegmentTemplate>
  </Representation>
</AdaptationSet>
  </Period>
</MPD>"#;
    let result = parse_dash_manifest(mpd, BASE_URL).unwrap();
    // Should prefer video by detecting mimeType="video/mp4" on Representation
    assert!(result.init_segment_url.contains("video_init"));
    assert!(result.segment_urls[0].contains("video_0"));
}

#[test]
fn parse_audio_only_mpd_uses_audio_template() {
    // When there's only audio (no video), should use the audio template
    let mpd = r#"<?xml version="1.0"?>
<MPD type="static" mediaPresentationDuration="PT10S">
  <Period>
<AdaptationSet contentType="audio" mimeType="audio/mp4">
  <SegmentTemplate initialization="audio_init.mp4" media="audio_$Number$.m4a" timescale="48000" startNumber="0">
    <SegmentTimeline>
      <S d="240000" r="1"/>
    </SegmentTimeline>
  </SegmentTemplate>
  <Representation id="a0" bandwidth="128000"/>
</AdaptationSet>
  </Period>
</MPD>"#;
    let result = parse_dash_manifest(mpd, BASE_URL).unwrap();
    // Should use audio template since it's the only one available
    assert!(result.init_segment_url.contains("audio_init"));
    assert!(result.segment_urls[0].contains("audio_0"));
    assert_eq!(result.segment_urls.len(), 2);
}

#[test]
fn parse_segment_base_prefers_video_over_audio() {
    // SegmentBase with audio first, then video — should prefer video
    let mpd = r#"<?xml version="1.0"?>
<MPD type="static" mediaPresentationDuration="PT60S" profiles="urn:mpeg:dash:profile:isoff-on-demand:2011">
  <Period>
<AdaptationSet contentType="audio" mimeType="audio/mp4">
  <Representation id="a0" bandwidth="128000" codecs="mp4a.40.2">
    <BaseURL>audio.mp4</BaseURL>
    <SegmentBase indexRange="822-1981" timescale="48000">
      <Initialization range="0-821"/>
    </SegmentBase>
  </Representation>
</AdaptationSet>
<AdaptationSet contentType="video" mimeType="video/mp4">
  <Representation id="v0" bandwidth="2000000" codecs="avc1.64001f">
    <BaseURL>video.mp4</BaseURL>
    <SegmentBase indexRange="823-1982" timescale="15360">
      <Initialization range="0-822"/>
    </SegmentBase>
  </Representation>
</AdaptationSet>
  </Period>
</MPD>"#;
    let result = parse_dash_manifest(mpd, BASE_URL).unwrap();
    // Should have SegmentBase data from the video Representation
    assert!(result.segment_base.is_some());
    let sb = result.segment_base.as_ref().unwrap();
    assert!(sb.file_url.contains("video.mp4"), "Expected video.mp4 but got {}", sb.file_url);
    assert_eq!(sb.timescale, 15360);
}

#[test]
fn parse_three_adaptation_sets_video_audio_webm_selects_mp4_video() {
    // Multiple AdaptationSets: video/mp4, audio/mp4, video/webm
    // Should select the video/mp4 SegmentTemplate
    let mpd = r#"<?xml version="1.0"?>
<MPD type="static" mediaPresentationDuration="PT12S">
  <Period>
<AdaptationSet contentType="video" mimeType="video/mp4">
  <SegmentTemplate initialization="mp4_video_init.mp4" media="mp4_video_$Number$.cmfv" timescale="1000" startNumber="0">
    <SegmentTimeline>
      <S d="6000" r="1"/>
    </SegmentTimeline>
  </SegmentTemplate>
  <Representation id="v0" bandwidth="2000000"/>
</AdaptationSet>
<AdaptationSet contentType="audio" mimeType="audio/mp4">
  <SegmentTemplate initialization="mp4_audio_init.mp4" media="mp4_audio_$Number$.m4a" timescale="48000" startNumber="0">
    <SegmentTimeline>
      <S d="240000" r="1"/>
    </SegmentTimeline>
  </SegmentTemplate>
  <Representation id="a0" bandwidth="128000"/>
</AdaptationSet>
<AdaptationSet contentType="video" mimeType="video/webm">
  <SegmentTemplate initialization="webm_video_init.webm" media="webm_video_$Number$.webm" timescale="1000" startNumber="0">
    <SegmentTimeline>
      <S d="6000" r="1"/>
    </SegmentTimeline>
  </SegmentTemplate>
  <Representation id="v1" bandwidth="1500000"/>
</AdaptationSet>
  </Period>
</MPD>"#;
    let result = parse_dash_manifest(mpd, BASE_URL).unwrap();
    // Should use the first video/mp4 template (not audio or webm)
    assert!(result.init_segment_url.contains("mp4_video_init"));
    assert!(result.segment_urls[0].contains("mp4_video_0"));
}

#[test]
fn parse_uniform_duration_audio_then_video_selects_video() {
    // Uniform duration mode (no SegmentTimeline) with audio first
    let mpd = r#"<?xml version="1.0"?>
<MPD type="static" mediaPresentationDuration="PT12S">
  <Period>
<AdaptationSet contentType="audio" mimeType="audio/mp4">
  <Representation>
    <SegmentTemplate initialization="audio_init.mp4" media="audio_$Number$.m4a" duration="240000" timescale="48000" startNumber="0"/>
  </Representation>
</AdaptationSet>
<AdaptationSet contentType="video" mimeType="video/mp4">
  <Representation>
    <SegmentTemplate initialization="video_init.mp4" media="video_$Number$.cmfv" duration="6000" timescale="1000" startNumber="0"/>
  </Representation>
</AdaptationSet>
  </Period>
</MPD>"#;
    let result = parse_dash_manifest(mpd, BASE_URL).unwrap();
    // Should use video init and media templates
    assert!(result.init_segment_url.contains("video_init"));
    assert!(result.segment_urls[0].contains("video_0"));
    // Duration should be from video: 6000/1000 = 6.0s
    assert!((float(result.segment_durations[0]) - 6.0).abs() < 0.001);
}
