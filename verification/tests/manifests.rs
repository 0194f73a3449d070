use edgepack::decimal::Decimal;
use edgepack::drm::scheme::EncryptionScheme;
use edgepack::error::EdgepackError;
use edgepack::manifest::dash_input::{parse_dash_events, parse_dash_manifest, parse_iso8601_duration};
use edgepack::manifest::hls::{hex_encode_base64, render, render_master};
use edgepack::manifest::hls_input::{
    extract_exact_attribute, hex_decode, parse_daterange_ad_break, parse_hls_manifest,
    parse_hls_master_playlist,
};
use edgepack::manifest::types::{
    AdBreakInfo, IFrameSegmentInfo, InitSegmentInfo, ManifestPhase, ManifestState, OutputFormat,
    PartInfo, SegmentInfo, TrackMediaType, VariantInfo,
};
use edgepack::manifest::{dash, render_iframe_manifest, render_manifest};
use edgepack::media::compat::{detect_hdr_format, validate_codec_scheme, HdrFormat};
use edgepack::media::container::ContainerFormat;
use edgepack::url::Url;
use edgepack::xml::XmlEvent;

const URL: &str = "https://cdn.example.com/a/b/list.m3u8";

fn secs(n: i128) -> Decimal {
    Decimal { nanos: n * 1_000_000_000 }
}

fn state(phase: ManifestPhase, n: u32) -> ManifestState {
    let mut s =
        ManifestState::new("c".into(), OutputFormat::Hls, "/".into(), ContainerFormat::Cmaf);
    s.phase = phase;
    for i in 0..n {
        s.segments.push(SegmentInfo {
            number: i + 10,
            duration: secs(6),
            uri: format!("s{i}"),
            byte_size: 1,
            key_period: None,
        });
    }
    s
}

#[test]
fn the_window_shows_what_fits_and_no_less() {
    let mut s = state(ManifestPhase::Live, 5);
    s.dvr_window_duration = Some(secs(18));
    assert_eq!(s.windowed_segments().len(), 3);
    assert_eq!(s.windowed_media_sequence(), 12);
    s.dvr_window_duration = Some(Decimal { nanos: 17_999_999_999 });
    assert_eq!(s.windowed_segments().len(), 2);
    s.dvr_window_duration = Some(secs(0));
    assert_eq!(s.windowed_segments().len(), 5);
    assert_eq!(s.windowed_media_sequence(), 0);
    s.dvr_window_duration = Some(secs(1));
    assert_eq!(s.windowed_segments().len(), 0);
}

#[test]
fn the_window_shows_the_items_of_its_segments() {
    let mut s = state(ManifestPhase::Live, 4);
    for i in 0..4 {
        s.parts.push(PartInfo {
            segment_number: i + 10,
            part_index: 0,
            duration: secs(1),
            independent: true,
            uri: format!("p{i}"),
            byte_size: 1,
        });
        s.iframe_segments.push(IFrameSegmentInfo {
            segment_number: i + 10,
            byte_offset: 0,
            byte_length: 1,
            duration: secs(6),
            segment_uri: format!("i{i}"),
        });
    }
    s.dvr_window_duration = Some(secs(12));
    let parts = s.windowed_parts();
    assert_eq!(parts.len(), 2);
    assert_eq!((parts[0].segment_number, parts[1].segment_number), (12, 13));
    assert_eq!(s.windowed_iframe_segments().len(), 2);
    s.phase = ManifestPhase::Complete;
    assert_eq!(s.windowed_parts().len(), 4);
    assert_eq!(s.windowed_segments().len(), 4);
}

#[test]
fn a_small_playlist_is_exactly_this() {
    let mut s = state(ManifestPhase::Complete, 1);
    s.target_duration = Decimal { nanos: 5_000_000_001 };
    assert_eq!(
        render(&s).unwrap(),
        "#EXTM3U\n#EXT-X-VERSION:7\n#EXT-X-TARGETDURATION:6\n#EXT-X-MEDIA-SEQUENCE:0\n\
         #EXT-X-PLAYLIST-TYPE:VOD\n#EXT-X-INDEPENDENT-SEGMENTS\n#EXTINF:6.000000,\ns0\n\
         #EXT-X-ENDLIST\n"
    );
    s.phase = ManifestPhase::Live;
    assert!(!render(&s).unwrap().contains("#EXT-X-ENDLIST"));
}

#[test]
fn playlists_start_with_their_tag_and_mpds_are_closed() {
    let mut s = state(ManifestPhase::AwaitingFirstSegment, 0);
    assert!(render_manifest(&s).unwrap().starts_with("#EXTM3U\n"));
    assert!(render_master(&s, &[]).unwrap().starts_with("#EXTM3U\n"));
    s.format = OutputFormat::Dash;
    s.phase = ManifestPhase::Live;
    let mpd = render_manifest(&s).unwrap();
    assert!(mpd.contains("type=\"dynamic\""));
    assert!(mpd.ends_with("  </Period>\n</MPD>\n"));
    s.phase = ManifestPhase::Complete;
    assert!(dash::render(&s).unwrap().contains("type=\"static\""));
}

#[test]
fn durations_are_written_and_read() {
    assert_eq!(dash::format_iso8601_duration(Decimal { nanos: 3_661_500_000_000 }), "PT1H1M1.500S");
    assert_eq!(dash::format_iso8601_duration(secs(3600)), "PT1H");
    assert_eq!(parse_iso8601_duration("PT1H1M1.5S"), Some(Decimal { nanos: 3_661_500_000_000 }));
    assert_eq!(parse_iso8601_duration("PT1H1M1.500S"), Some(Decimal { nanos: 3_661_500_000_000 }));
    assert_eq!(parse_iso8601_duration("P1D"), None);
    assert_eq!(parse_iso8601_duration("1S"), None);
    assert_eq!(dash::format_kid_with_hyphens("00112233445566778899aabbccddeeff"), "00112233-4455-6677-8899-aabbccddeeff");
}

#[test]
fn decimals_are_read_and_written() {
    let read = |t: &str| Decimal::parse(&t.chars().collect::<Vec<char>>());
    assert_eq!(read("6.006"), Some(Decimal { nanos: 6_006_000_000 }));
    assert_eq!(read("-2"), Some(secs(-2)));
    assert_eq!(read("1.2.3"), None);
    assert_eq!(read(""), None);
    assert_eq!(read("1e1"), Some(secs(10)));
    assert_eq!(read("-1.5E-3"), Some(Decimal { nanos: -1_500_000 }));
    assert_eq!(read("12.5e+1"), Some(secs(125)));
    assert_eq!(read("1234e-99999999999999999999999999"), Some(secs(0)));
    assert_eq!(read("0e99999999999999999999999999"), Some(secs(0)));
    assert_eq!(read("1e10"), Some(secs(10_000_000_000)));
    assert_eq!(read("99999999999"), Some(secs(99_999_999_999)));
    assert_eq!(read("1e99999999999999999999999999"), Some(Decimal { nanos: i128::MAX }));
    assert_eq!(read("-1e30"), Some(Decimal { nanos: i128::MIN }));
    assert_eq!(read("170141183460469231731687303715.884105727"), Some(Decimal { nanos: i128::MAX }));
    assert_eq!(read("170141183460469231731687303715.884105726"), Some(Decimal { nanos: i128::MAX - 1 }));
    assert_eq!(read("inf"), Some(Decimal { nanos: i128::MAX }));
    assert_eq!(read("-Infinity"), Some(Decimal { nanos: i128::MIN }));
    assert_eq!(read("+NaN"), Some(secs(0)));
    assert_eq!(read("infinit"), None);
    assert_eq!(read("1e"), None);
    assert_eq!(read("e1"), None);
    assert_eq!(read("1e1.5"), None);
    let mut out = String::new();
    Decimal { nanos: 2_500_000_000 }.put_fixed(&mut out, 3);
    out.push(' ');
    Decimal { nanos: 29_970_000_000 }.put_shortest(&mut out);
    assert_eq!(out, "2.500 29.97");
    let fixed = |nanos: i128| {
        let mut out = String::new();
        Decimal { nanos }.put_fixed(&mut out, 3);
        out
    };
    assert_eq!(fixed(62_500_000), "0.062");
    assert_eq!(fixed(187_500_000), "0.188");
    assert_eq!(fixed(62_500_001), "0.063");
    assert_eq!(fixed(-999_500_000), "-1.000");
    assert_eq!(fixed(99_999_999_999_000_000_000), "99999999999.000");
    assert_eq!(fixed(i128::MIN + 1), "-170141183460469231731687303715.884");
    assert_eq!(fixed(i128::MAX), "inf");
    assert_eq!(fixed(i128::MIN), "-inf");
    assert_eq!(Decimal { nanos: i128::MAX }.plus(secs(-5)).nanos, i128::MAX);
    assert_eq!(Decimal { nanos: i128::MAX }.plus(Decimal { nanos: i128::MIN }), secs(0));
    assert_eq!(Decimal::from_ticks(5, 0).nanos, i128::MAX);
    assert_eq!(Decimal::from_ticks(0, 0), secs(0));
    assert_eq!(Decimal { nanos: i128::MAX }.ceil(), u64::MAX);
    assert_eq!(Decimal { nanos: i128::MAX }.ticks(90000), u64::MAX);
    assert_eq!(Decimal { nanos: i128::MAX }.plus(secs(1)).nanos, i128::MAX);
    assert_eq!(Decimal { nanos: i128::MIN / 2 }.times(3).nanos, i128::MIN);
    assert_eq!(secs(-2).times(3600), secs(-7200));
    assert_eq!(Decimal { nanos: 1 }.ceil(), 1);
    assert_eq!(Decimal { nanos: 1_500_000_000 }.ticks(1000), 1500);
    assert_eq!(Decimal::from_ticks(540_540, 90_000), Decimal { nanos: 6_006_000_000 });
}

#[test]
fn base64_becomes_hex_and_hex_becomes_base64() {
    assert_eq!(hex_encode_base64("/DA="), "fc30");
    assert_eq!(hex_encode_base64("not base64!"), "not base64!");
    assert_eq!(hex_decode("0aFF"), Some(vec![10, 255]));
    assert_eq!(hex_decode("abc"), None);
    let b = parse_daterange_ad_break(
        "#EXT-X-DATERANGE:ID=\"splice-7\",SCTE35-CMD=0xFC30,PLANNED-DURATION=2.5",
        3,
        secs(4),
    )
    .unwrap();
    assert_eq!(b.scte35_cmd.as_deref(), Some("/DA="));
    assert_eq!(b.id, 7);
    assert_eq!(b.duration, Some(Decimal { nanos: 2_500_000_000 }));
    assert_eq!(b.presentation_time, secs(4));
}

#[test]
fn media_playlists_keep_one_duration_for_every_segment() {
    let text = "#EXTM3U\n#EXT-X-MAP:URI=\"init.mp4\"\n#EXTINF:6.006,\n../s1.m4s\n#EXTINF:4,\n/s2.m4s\n#EXT-X-ENDLIST\n";
    let m = parse_hls_manifest(text, URL).unwrap();
    assert_eq!(m.segment_urls.len(), m.segment_durations.len());
    assert_eq!(m.segment_urls[0], "https://cdn.example.com/a/s1.m4s");
    assert_eq!(m.segment_urls[1], "https://cdn.example.com/s2.m4s");
    assert_eq!(m.segment_durations[0], Decimal { nanos: 6_006_000_000 });
    assert!(!m.is_live);
    assert!(parse_hls_master_playlist(text, URL).is_err());
}

#[test]
fn master_playlists_keep_one_uri_for_every_variant() {
    let text = "#EXTM3U\n#EXT-X-STREAM-INF:BANDWIDTH=100,RESOLUTION=640x360\nv1.m3u8\n#EXT-X-STREAM-INF:BANDWIDTH=200\nv2.m3u8\n";
    let m = parse_hls_master_playlist(text, URL).unwrap();
    assert_eq!(m.variants.len(), 2);
    assert_eq!(m.variant_uris.len(), 2);
    assert_eq!((m.variants[0].width, m.variants[0].height), (Some(640), Some(360)));
    assert_eq!(m.variant_uris[1], "https://cdn.example.com/a/b/v2.m3u8");
    assert!(parse_hls_manifest(text, URL).is_err());
    assert_eq!(
        extract_exact_attribute("#X:PART-HOLD-BACK=1,HOLD-BACK=2", "HOLD-BACK").as_deref(),
        Some("2")
    );
}

#[test]
fn broken_manifests_are_refused() {
    assert!(matches!(parse_hls_manifest("#EXTM3U\n", "nowhere"), Err(EdgepackError::Manifest(_))));
    assert!(matches!(parse_hls_manifest("", URL), Err(EdgepackError::Manifest(_))));
    assert!(matches!(parse_dash_manifest("<MPD></MPD>", URL), Err(EdgepackError::Manifest(_))));
    let r = parse_dash_manifest("<MPD></Period>", URL);
    assert!(r.unwrap_err().to_string().starts_with("MPD XML parse error: "));
}

#[test]
fn the_first_video_template_is_kept() {
    let mpd = r#"<MPD type="static" mediaPresentationDuration="PT10S">
<Period><AdaptationSet contentType="video">
<SegmentTemplate initialization="v.mp4" media="v$Number$.m4s" timescale="10" duration="40" startNumber="5"/>
</AdaptationSet><AdaptationSet contentType="audio">
<SegmentTemplate initialization="a.mp4" media="a$Number$.m4s" timescale="1" duration="1"/>
</AdaptationSet></Period></MPD>"#;
    let m = parse_dash_manifest(mpd, URL).unwrap();
    assert_eq!(m.init_segment_url, "https://cdn.example.com/a/b/v.mp4");
    assert_eq!(m.segment_urls.len(), 3);
    assert_eq!(m.segment_durations, vec![secs(4), secs(4), secs(2)]);
    assert_eq!(m.segment_urls[2], "https://cdn.example.com/a/b/v7.m4s");
}

#[test]
fn events_alone_make_a_manifest() {
    let tag = |name: &str, attrs: &[(&str, &str)]| {
        Ok(XmlEvent::Tag(
            name.as_bytes().to_vec(),
            attrs
                .iter()
                .map(|(k, v)| Some((k.as_bytes().to_vec(), v.as_bytes().to_vec())))
                .collect(),
            false,
        ))
    };
    let events = vec![
        tag("MPD", &[("type", "dynamic")]),
        tag("AdaptationSet", &[("mimeType", "video/mp4")]),
        tag("SegmentTemplate", &[("initialization", "i"), ("media", "m$Number$"), ("timescale", "2")]),
        tag("S", &[("d", "4"), ("r", "1")]),
        Ok(XmlEvent::Close(b"MPD".to_vec())),
    ];
    let m = parse_dash_events(&events, URL).unwrap();
    assert!(m.is_live);
    assert_eq!(m.segment_durations, vec![secs(2), secs(2)]);
    assert_eq!(m.segment_urls[1], "https://cdn.example.com/a/b/m1");
    let broken = vec![Err("torn".to_string())];
    assert_eq!(
        parse_dash_events(&broken, URL).unwrap_err().to_string(),
        "MPD XML parse error: torn"
    );
}

#[test]
fn references_are_resolved() {
    let base = Url::parse("https://h.example/x/y/z?q").unwrap();
    assert_eq!(base.join("a").unwrap(), "https://h.example/x/y/a");
    assert_eq!(base.join("../a/./b").unwrap(), "https://h.example/x/a/b");
    assert_eq!(base.join("/a").unwrap(), "https://h.example/a");
    assert_eq!(base.join("//other.example/a").unwrap(), "https://other.example/a");
    assert_eq!(base.join("http://other.example/a").unwrap(), "http://other.example/a");
    assert!(Url::parse("x/y").is_err());
}

#[test]
fn codec_strings_are_read_whatever_their_case() {
    assert_eq!(detect_hdr_format("DVHE.05.06"), Some(HdrFormat::DolbyVision));
    assert_eq!(detect_hdr_format("av01.0.08M.10"), Some(HdrFormat::Hdr10));
    assert_eq!(detect_hdr_format("av01.0.08M.08"), None);
    let r = validate_codec_scheme("AVC1.640028", EncryptionScheme::Cbcs, EncryptionScheme::Cenc);
    assert!(r.valid);
}

#[test]
fn iframe_manifest_is_a_playlist_of_its_own_in_hls_only() {
    let mut s = state(ManifestPhase::Complete, 1);
    s.enable_iframe_playlist = true;
    s.init_segment = Some(InitSegmentInfo { uri: "init.mp4".into(), byte_size: 10 });
    s.iframe_segments.push(IFrameSegmentInfo {
        segment_number: 10,
        byte_offset: 0,
        byte_length: 500,
        duration: secs(6),
        segment_uri: "s0".into(),
    });
    let text = render_iframe_manifest(&s).unwrap().unwrap();
    assert!(text.contains("#EXT-X-I-FRAMES-ONLY"));
    assert!(text.contains("#EXT-X-BYTERANGE:500@0"));
    assert!(text.contains("s0"));
    s.format = OutputFormat::Dash;
    assert!(render_iframe_manifest(&s).unwrap().is_none());
}

#[test]
fn nothing_is_shown_of_an_empty_window() {
    let mut s = state(ManifestPhase::Live, 0);
    s.dvr_window_duration = Some(secs(5));
    s.segments.push(SegmentInfo {
        number: 0,
        duration: secs(10),
        uri: "s".into(),
        byte_size: 1,
        key_period: None,
    });
    s.parts.push(PartInfo {
        segment_number: 0,
        part_index: 0,
        duration: secs(1),
        independent: true,
        uri: "p".into(),
        byte_size: 1,
    });
    s.iframe_segments.push(IFrameSegmentInfo {
        segment_number: 0,
        byte_offset: 0,
        byte_length: 500,
        duration: secs(10),
        segment_uri: "s".into(),
    });
    s.ad_breaks.push(AdBreakInfo {
        id: 1,
        presentation_time: secs(0),
        duration: None,
        scte35_cmd: None,
        segment_number: 0,
    });
    assert!(s.windowed_segments().is_empty());
    assert!(s.windowed_parts().is_empty());
    assert!(s.windowed_iframe_segments().is_empty());
    assert!(s.windowed_ad_breaks().is_empty());
}

#[test]
fn an_explicit_variant_uri_comes_first() {
    let mut s = state(ManifestPhase::Complete, 1);
    s.variants.push(VariantInfo {
        id: "v0".into(),
        bandwidth: 1000,
        codecs: "avc1.42c01f".into(),
        resolution: None,
        frame_rate: None,
        track_type: TrackMediaType::Video,
        language: None,
        segment_path_prefix: Some("v/0/".into()),
    });
    assert!(render_master(&s, &["variant.m3u8".to_string()]).unwrap().ends_with("\nvariant.m3u8\n"));
    assert!(render_master(&s, &[]).unwrap().ends_with("\nv/0/manifest\n"));
}

#[test]
fn durations_with_an_exponent_are_read() {
    let text = "#EXTM3U\n#EXT-X-MAP:URI=\"init.mp4\"\n#EXTINF:1e1,\ns1.m4s\n#EXT-X-ENDLIST\n";
    let m = parse_hls_manifest(text, URL).unwrap();
    assert_eq!(m.segment_durations, vec![secs(10)]);
}

#[test]
fn long_segments_are_kept() {
    let text = "#EXTM3U\n#EXT-X-MAP:URI=\"init.mp4\"\n#EXTINF:99999999999,\ns1.m4s\n#EXTINF:inf,\ns2.m4s\n#EXT-X-ENDLIST\n";
    let m = parse_hls_manifest(text, URL).unwrap();
    assert_eq!(m.segment_urls.len(), 2);
    assert_eq!(m.segment_durations[0], secs(99_999_999_999));
    assert_eq!(dash::format_iso8601_duration(m.segment_durations[0]), "PT27777777H46M39.000S");
    assert_eq!(dash::format_iso8601_duration(m.segment_durations[1]), "PT18446744073709551615H");
}
