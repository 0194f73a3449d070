use edgepack::decimal::Decimal;
use edgepack::manifest::render_manifest;
use edgepack::manifest::types::{InitSegmentInfo, ManifestPhase, ManifestState, OutputFormat, SegmentInfo};
use edgepack::media::container::ContainerFormat;

/// Seconds as the library counts them.
fn secs(x: f64) -> Decimal {
    Decimal { nanos: (x * 1e9).round() as i128 }
}

fn make_live_state(format: OutputFormat) -> ManifestState {
    let mut s = ManifestState::new("test".into(), format, "/".into(), ContainerFormat::default());
    s.phase = ManifestPhase::Live;
    s.init_segment = Some(InitSegmentInfo {
        uri: "/init.mp4".into(),
        byte_size: 256,
    });
    s.segments.push(SegmentInfo {
        number: 0,
        duration: secs(6.0),
        uri: "/segment_0.cmfv".into(),
        byte_size: 1024,
        key_period: None,
    });
    s
}

#[test]
fn render_manifest_dispatches_to_hls() {
    let state = make_live_state(OutputFormat::Hls);
    let result = render_manifest(&state).unwrap();
    assert!(result.contains("#EXTM3U"));
    assert!(!result.contains("<MPD"));
}

#[test]
fn render_manifest_dispatches_to_dash() {
    let state = make_live_state(OutputFormat::Dash);
    let result = render_manifest(&state).unwrap();
    assert!(result.contains("<MPD"));
    assert!(!result.contains("#EXTM3U"));
}

#[test]
fn render_manifest_awaiting_hls_returns_ok() {
    let state = ManifestState::new("test".into(), OutputFormat::Hls, "/".into(), ContainerFormat::default());
    let result = render_manifest(&state);
    assert!(result.is_ok());
}

#[test]
fn render_manifest_awaiting_dash_returns_ok() {
    let state = ManifestState::new("test".into(), OutputFormat::Dash, "/".into(), ContainerFormat::default());
    let result = render_manifest(&state);
    assert!(result.is_ok());
}
