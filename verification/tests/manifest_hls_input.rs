use edgepack::decimal::Decimal;
use edgepack::drm::scheme::EncryptionScheme;
use edgepack::manifest::hls_input::{extract_attribute, extract_attribute_unquoted, parse_hls_manifest};

/// Seconds as the library counts them.
fn secs(x: f64) -> Decimal {
    Decimal { nanos: (x * 1e9).round() as i128 }
}

/// A number of the library as a float.
fn float(d: Decimal) -> f64 {
    d.nanos as f64 / 1e9
}

const BASE_URL: &str = "https://cdn.example.com/content/master.m3u8";

fn minimal_vod_manifest() -> &'static str {
    "#EXTM3U\n\
     #EXT-X-VERSION:7\n\
     #EXT-X-TARGETDURATION:7\n\
     #EXT-X-MEDIA-SEQUENCE:0\n\
     #EXT-X-MAP:URI=\"init.mp4\"\n\
     #EXTINF:6.006000,\n\
     segment_0.cmfv\n\
     #EXTINF:6.006000,\n\
     segment_1.cmfv\n\
     #EXTINF:4.004000,\n\
     segment_2.cmfv\n\
     #EXT-X-ENDLIST\n"
}

#[test]
fn parse_minimal_vod_manifest() {
    let result = parse_hls_manifest(minimal_vod_manifest(), BASE_URL).unwrap();
    assert_eq!(
        result.init_segment_url,
        "https://cdn.example.com/content/init.mp4"
    );
    assert_eq!(result.segment_urls.len(), 3);
    assert_eq!(result.segment_durations.len(), 3);
    assert!(!result.is_live);
}

#[test]
fn parse_resolves_relative_urls() {
    let result = parse_hls_manifest(minimal_vod_manifest(), BASE_URL).unwrap();
    assert_eq!(
        result.segment_urls[0],
        "https://cdn.example.com/content/segment_0.cmfv"
    );
    assert_eq!(
        result.segment_urls[2],
        "https://cdn.example.com/content/segment_2.cmfv"
    );
}

#[test]
fn parse_extracts_durations() {
    let result = parse_hls_manifest(minimal_vod_manifest(), BASE_URL).unwrap();
    assert!((float(result.segment_durations[0]) - 6.006).abs() < 0.001);
    assert!((float(result.segment_durations[1]) - 6.006).abs() < 0.001);
    assert!((float(result.segment_durations[2]) - 4.004).abs() < 0.001);
}

#[test]
fn parse_live_manifest_no_endlist() {
    let manifest = "#EXTM3U\n\
         #EXT-X-VERSION:7\n\
         #EXT-X-TARGETDURATION:7\n\
         #EXT-X-MAP:URI=\"init.mp4\"\n\
         #EXTINF:6.006,\n\
         segment_0.cmfv\n\
         #EXTINF:6.006,\n\
         segment_1.cmfv\n";
    let result = parse_hls_manifest(manifest, BASE_URL).unwrap();
    assert!(result.is_live);
    assert_eq!(result.segment_urls.len(), 2);
}

#[test]
fn parse_absolute_segment_urls() {
    let manifest = "#EXTM3U\n\
         #EXT-X-MAP:URI=\"https://other.cdn.com/init.mp4\"\n\
         #EXTINF:6.0,\n\
         https://other.cdn.com/seg_0.cmfv\n\
         #EXT-X-ENDLIST\n";
    let result = parse_hls_manifest(manifest, BASE_URL).unwrap();
    assert_eq!(result.init_segment_url, "https://other.cdn.com/init.mp4");
    assert_eq!(result.segment_urls[0], "https://other.cdn.com/seg_0.cmfv");
}

#[test]
fn parse_master_playlist_returns_error() {
    let master = "#EXTM3U\n\
         #EXT-X-STREAM-INF:BANDWIDTH=2000000,CODECS=\"avc1.64001f\"\n\
         variant_high.m3u8\n";
    let result = parse_hls_manifest(master, BASE_URL);
    assert!(result.is_err());
    let err = result.unwrap_err().to_string();
    assert!(err.contains("master playlist"));
}

#[test]
fn parse_missing_init_segment_returns_error() {
    let manifest = "#EXTM3U\n\
         #EXTINF:6.0,\n\
         segment_0.cmfv\n\
         #EXT-X-ENDLIST\n";
    let result = parse_hls_manifest(manifest, BASE_URL);
    assert!(result.is_err());
    let err = result.unwrap_err().to_string();
    assert!(err.contains("EXT-X-MAP"));
}

#[test]
fn hls_input_parse_invalid_manifest_url() {
    let result = parse_hls_manifest(minimal_vod_manifest(), "not-a-url");
    assert!(result.is_err());
    let err = result.unwrap_err().to_string();
    assert!(err.contains("invalid manifest URL"));
}

#[test]
fn parse_empty_manifest_no_segments() {
    let manifest = "#EXTM3U\n\
         #EXT-X-MAP:URI=\"init.mp4\"\n\
         #EXT-X-ENDLIST\n";
    let result = parse_hls_manifest(manifest, BASE_URL).unwrap();
    assert_eq!(result.init_segment_url, "https://cdn.example.com/content/init.mp4");
    assert!(result.segment_urls.is_empty());
    assert!(result.segment_durations.is_empty());
    assert!(!result.is_live);
}

#[test]
fn parse_ignores_comment_lines() {
    let manifest = "#EXTM3U\n\
         # This is a comment\n\
         #EXT-X-MAP:URI=\"init.mp4\"\n\
         #EXTINF:6.0,\n\
         segment_0.cmfv\n\
         #EXT-X-ENDLIST\n";
    let result = parse_hls_manifest(manifest, BASE_URL).unwrap();
    assert_eq!(result.segment_urls.len(), 1);
}

#[test]
fn parse_subdirectory_relative_paths() {
    let manifest = "#EXTM3U\n\
         #EXT-X-MAP:URI=\"video/init.mp4\"\n\
         #EXTINF:6.0,\n\
         video/segment_0.cmfv\n\
         #EXT-X-ENDLIST\n";
    let result = parse_hls_manifest(manifest, BASE_URL).unwrap();
    assert_eq!(
        result.init_segment_url,
        "https://cdn.example.com/content/video/init.mp4"
    );
    assert_eq!(
        result.segment_urls[0],
        "https://cdn.example.com/content/video/segment_0.cmfv"
    );
}

#[test]
fn parse_detects_cenc_from_ext_x_key() {
    let manifest = "#EXTM3U\n\
         #EXT-X-VERSION:7\n\
         #EXT-X-TARGETDURATION:7\n\
         #EXT-X-KEY:METHOD=SAMPLE-AES-CTR,URI=\"skd://key-id\",KEYFORMAT=\"urn:uuid:edef8ba9-79d6-4ace-a3c8-27dcd51d21ed\",KEYFORMATVERSIONS=\"1\"\n\
         #EXT-X-MAP:URI=\"init.mp4\"\n\
         #EXTINF:6.006,\n\
         segment_0.cmfv\n\
         #EXT-X-ENDLIST\n";
    let result = parse_hls_manifest(manifest, BASE_URL).unwrap();
    assert_eq!(result.source_scheme, Some(EncryptionScheme::Cenc));
}

#[test]
fn parse_detects_cbcs_from_ext_x_key() {
    let manifest = "#EXTM3U\n\
         #EXT-X-VERSION:7\n\
         #EXT-X-TARGETDURATION:7\n\
         #EXT-X-KEY:METHOD=SAMPLE-AES,URI=\"skd://key-id\",KEYFORMAT=\"com.apple.streamingkeydelivery\"\n\
         #EXT-X-MAP:URI=\"init.mp4\"\n\
         #EXTINF:6.006,\n\
         segment_0.cmfv\n\
         #EXT-X-ENDLIST\n";
    let result = parse_hls_manifest(manifest, BASE_URL).unwrap();
    assert_eq!(result.source_scheme, Some(EncryptionScheme::Cbcs));
}

#[test]
fn parse_no_ext_x_key_source_scheme_is_none() {
    let result = parse_hls_manifest(minimal_vod_manifest(), BASE_URL).unwrap();
    assert_eq!(result.source_scheme, None);
}

#[test]
fn parse_ignores_aes128_method() {
    let manifest = "#EXTM3U\n\
         #EXT-X-KEY:METHOD=AES-128,URI=\"https://example.com/key\"\n\
         #EXT-X-MAP:URI=\"init.mp4\"\n\
         #EXTINF:6.006,\n\
         segment_0.cmfv\n\
         #EXT-X-ENDLIST\n";
    let result = parse_hls_manifest(manifest, BASE_URL).unwrap();
    assert_eq!(result.source_scheme, None);
}

#[test]
fn parse_daterange_with_scte35_cmd() {
    let manifest = "#EXTM3U\n\
         #EXT-X-VERSION:7\n\
         #EXT-X-TARGETDURATION:7\n\
         #EXT-X-MAP:URI=\"init.mp4\"\n\
         #EXTINF:6.006,\n\
         segment_0.cmfv\n\
         #EXT-X-DATERANGE:ID=\"splice-42\",START-DATE=\"2024-01-01T00:00:06.006Z\",PLANNED-DURATION=30.0,SCTE35-CMD=0xFC301100000000000000FF\n\
         #EXTINF:6.006,\n\
         segment_1.cmfv\n\
         #EXT-X-ENDLIST\n";
    let result = parse_hls_manifest(manifest, BASE_URL).unwrap();
    assert_eq!(result.ad_breaks.len(), 1);
    let ab = &result.ad_breaks[0];
    assert_eq!(ab.id, 42);
    assert!((float(ab.duration.unwrap()) - 30.0).abs() < 0.001);
    assert!(ab.scte35_cmd.is_some());
    // Segment number should be 1 (DATERANGE appears after segment_0's URI)
    assert_eq!(ab.segment_number, 1);
}

#[test]
fn parse_daterange_scte35_out() {
    let manifest = "#EXTM3U\n\
         #EXT-X-MAP:URI=\"init.mp4\"\n\
         #EXTINF:6.0,\n\
         segment_0.cmfv\n\
         #EXT-X-DATERANGE:ID=\"splice-100\",START-DATE=\"2024-01-01T00:00:00Z\",SCTE35-OUT=YES,PLANNED-DURATION=15.5\n\
         #EXTINF:6.0,\n\
         segment_1.cmfv\n\
         #EXT-X-ENDLIST\n";
    let result = parse_hls_manifest(manifest, BASE_URL).unwrap();
    assert_eq!(result.ad_breaks.len(), 1);
    let ab = &result.ad_breaks[0];
    assert_eq!(ab.id, 100);
    assert!((float(ab.duration.unwrap()) - 15.5).abs() < 0.001);
    assert!(ab.scte35_cmd.is_none()); // SCTE35-OUT, not SCTE35-CMD
}

#[test]
fn parse_daterange_no_scte35_ignored() {
    // A DATERANGE without SCTE35-CMD or SCTE35-OUT should be ignored
    let manifest = "#EXTM3U\n\
         #EXT-X-MAP:URI=\"init.mp4\"\n\
         #EXT-X-DATERANGE:ID=\"program-1\",START-DATE=\"2024-01-01T00:00:00Z\",PLANNED-DURATION=60.0\n\
         #EXTINF:6.0,\n\
         segment_0.cmfv\n\
         #EXT-X-ENDLIST\n";
    let result = parse_hls_manifest(manifest, BASE_URL).unwrap();
    assert!(result.ad_breaks.is_empty());
}

#[test]
fn parse_no_daterange_empty_ad_breaks() {
    let result = parse_hls_manifest(minimal_vod_manifest(), BASE_URL).unwrap();
    assert!(result.ad_breaks.is_empty());
}

#[test]
fn extract_attribute_unquoted_basic() {
    let line = r#"#EXT-X-KEY:METHOD=SAMPLE-AES-CTR,URI="skd://key""#;
    assert_eq!(
        extract_attribute_unquoted(line, "METHOD"),
        Some("SAMPLE-AES-CTR".to_string())
    );
}

#[test]
fn extract_attribute_unquoted_at_end() {
    let line = r#"#EXT-X-KEY:URI="skd://key",METHOD=SAMPLE-AES"#;
    assert_eq!(
        extract_attribute_unquoted(line, "METHOD"),
        Some("SAMPLE-AES".to_string())
    );
}

#[test]
fn extract_attribute_unquoted_missing() {
    let line = r#"#EXT-X-KEY:METHOD=SAMPLE-AES"#;
    assert_eq!(extract_attribute_unquoted(line, "URI"), None);
}

#[test]
fn extract_attribute_basic() {
    let line = r#"#EXT-X-MAP:URI="init.mp4""#;
    assert_eq!(extract_attribute(line, "URI"), Some("init.mp4".to_string()));
}

#[test]
fn extract_attribute_missing() {
    let line = r#"#EXT-X-MAP:URI="init.mp4""#;
    assert_eq!(extract_attribute(line, "BYTERANGE"), None);
}

#[test]
fn extract_attribute_multiple() {
    let line = r#"#EXT-X-MAP:URI="init.mp4",BYTERANGE="500@0""#;
    assert_eq!(extract_attribute(line, "URI"), Some("init.mp4".to_string()));
    assert_eq!(
        extract_attribute(line, "BYTERANGE"),
        Some("500@0".to_string())
    );
}

// --- LL-HLS parsing tests ---

#[test]
fn parse_part_inf() {
    let manifest = "#EXTM3U\n\
         #EXT-X-VERSION:9\n\
         #EXT-X-TARGETDURATION:4\n\
         #EXT-X-PART-INF:PART-TARGET=0.33334\n\
         #EXT-X-MAP:URI=\"init.mp4\"\n\
         #EXTINF:4.0,\n\
         segment_0.cmfv\n\
         #EXT-X-ENDLIST\n";
    let result = parse_hls_manifest(manifest, BASE_URL).unwrap();
    assert_eq!(result.part_target_duration, Some(secs(0.33334)));
}

#[test]
fn parse_ext_x_parts() {
    let manifest = "#EXTM3U\n\
         #EXT-X-VERSION:9\n\
         #EXT-X-TARGETDURATION:4\n\
         #EXT-X-PART-INF:PART-TARGET=0.33334\n\
         #EXT-X-MAP:URI=\"init.mp4\"\n\
         #EXT-X-PART:DURATION=0.33334,URI=\"part0.0.cmfv\",INDEPENDENT=YES\n\
         #EXT-X-PART:DURATION=0.33334,URI=\"part0.1.cmfv\"\n\
         #EXT-X-PART:DURATION=0.33334,URI=\"part0.2.cmfv\"\n\
         #EXTINF:1.0,\n\
         segment_0.cmfv\n\
         #EXT-X-PART:DURATION=0.33334,URI=\"part1.0.cmfv\",INDEPENDENT=YES\n\
         #EXTINF:0.33334,\n\
         segment_1.cmfv\n\
         #EXT-X-ENDLIST\n";
    let result = parse_hls_manifest(manifest, BASE_URL).unwrap();
    assert_eq!(result.parts.len(), 4);
    // First 3 parts belong to segment 0
    assert_eq!(result.parts[0].segment_number, 0);
    assert_eq!(result.parts[0].part_index, 0);
    assert!(result.parts[0].independent);
    assert_eq!(result.parts[1].segment_number, 0);
    assert_eq!(result.parts[1].part_index, 1);
    assert!(!result.parts[1].independent);
    assert_eq!(result.parts[2].segment_number, 0);
    assert_eq!(result.parts[2].part_index, 2);
    // Fourth part belongs to segment 1 (part index resets)
    assert_eq!(result.parts[3].segment_number, 1);
    assert_eq!(result.parts[3].part_index, 0);
    assert!(result.parts[3].independent);
}

#[test]
fn parse_server_control_tag() {
    let manifest = "#EXTM3U\n\
         #EXT-X-VERSION:9\n\
         #EXT-X-TARGETDURATION:4\n\
         #EXT-X-SERVER-CONTROL:CAN-BLOCK-RELOAD=YES,PART-HOLD-BACK=1.0,CAN-SKIP-UNTIL=12.0\n\
         #EXT-X-MAP:URI=\"init.mp4\"\n\
         #EXTINF:4.0,\n\
         segment_0.cmfv\n\
         #EXT-X-ENDLIST\n";
    let result = parse_hls_manifest(manifest, BASE_URL).unwrap();
    let sc = result.server_control.unwrap();
    assert!(sc.can_block_reload);
    assert_eq!(sc.part_hold_back, Some(secs(1.0)));
    assert_eq!(sc.can_skip_until, Some(secs(12.0)));
    assert!(sc.hold_back.is_none());
}

#[test]
fn parse_preload_hint_skipped() {
    let manifest = "#EXTM3U\n\
         #EXT-X-VERSION:9\n\
         #EXT-X-TARGETDURATION:4\n\
         #EXT-X-PRELOAD-HINT:TYPE=PART,URI=\"next.cmfv\"\n\
         #EXT-X-MAP:URI=\"init.mp4\"\n\
         #EXTINF:4.0,\n\
         segment_0.cmfv\n\
         #EXT-X-ENDLIST\n";
    let result = parse_hls_manifest(manifest, BASE_URL).unwrap();
    // Preload hint is acknowledged but not stored
    assert_eq!(result.segment_urls.len(), 1);
}

#[test]
fn parse_backward_compat_no_ll_tags() {
    let result = parse_hls_manifest(minimal_vod_manifest(), BASE_URL).unwrap();
    assert!(result.parts.is_empty());
    assert!(result.part_target_duration.is_none());
    assert!(result.server_control.is_none());
}

#[test]
fn parse_part_independent_flag() {
    let manifest = "#EXTM3U\n\
         #EXT-X-MAP:URI=\"init.mp4\"\n\
         #EXT-X-PART:DURATION=0.5,URI=\"p.cmfv\",INDEPENDENT=YES\n\
         #EXTINF:0.5,\n\
         segment_0.cmfv\n\
         #EXT-X-ENDLIST\n";
    let result = parse_hls_manifest(manifest, BASE_URL).unwrap();
    assert_eq!(result.parts.len(), 1);
    assert!(result.parts[0].independent);
}

// --- TS source detection tests ---

#[test]
fn parse_ts_source_detected_from_extension() {
    let manifest = "#EXTM3U\n\
         #EXT-X-VERSION:3\n\
         #EXT-X-TARGETDURATION:10\n\
         #EXTINF:10.0,\n\
         segment_0.ts\n\
         #EXTINF:10.0,\n\
         segment_1.ts\n\
         #EXT-X-ENDLIST\n";
    let result = parse_hls_manifest(manifest, BASE_URL).unwrap();
    assert!(result.is_ts_source);
    assert_eq!(result.segment_urls.len(), 2);
    // init_segment_url should be empty for TS (no #EXT-X-MAP)
    assert_eq!(result.init_segment_url, "");
}

#[test]
fn parse_ts_source_with_aes128_key() {
    let manifest = "#EXTM3U\n\
         #EXT-X-VERSION:3\n\
         #EXT-X-TARGETDURATION:10\n\
         #EXT-X-KEY:METHOD=AES-128,URI=\"https://keys.example.com/key.bin\",IV=0x00000000000000000000000000000001\n\
         #EXTINF:10.0,\n\
         segment_0.ts\n\
         #EXT-X-ENDLIST\n";
    let result = parse_hls_manifest(manifest, BASE_URL).unwrap();
    assert!(result.is_ts_source);
    assert_eq!(
        result.aes128_key_url.as_deref(),
        Some("https://keys.example.com/key.bin")
    );
    assert!(result.aes128_iv.is_some());
    let iv = result.aes128_iv.unwrap();
    assert_eq!(iv[15], 0x01);
    assert_eq!(iv[0], 0x00);
}

#[test]
fn parse_cmaf_source_not_ts() {
    let result = parse_hls_manifest(minimal_vod_manifest(), BASE_URL).unwrap();
    assert!(!result.is_ts_source);
    assert!(result.aes128_key_url.is_none());
    assert!(result.aes128_iv.is_none());
}

#[test]
fn parse_ts_source_with_query_string() {
    let manifest = "#EXTM3U\n\
         #EXT-X-VERSION:3\n\
         #EXT-X-TARGETDURATION:10\n\
         #EXTINF:10.0,\n\
         segment_0.ts?token=abc\n\
         #EXT-X-ENDLIST\n";
    let result = parse_hls_manifest(manifest, BASE_URL).unwrap();
    assert!(result.is_ts_source);
}
