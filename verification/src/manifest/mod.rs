//! Manifests: reading source manifests and writing HLS playlists and DASH MPDs.

pub mod dash;
pub mod dash_input;
pub mod elements;
pub mod heads;
pub mod hls;
pub mod hls_input;
pub mod lines;
pub mod readback;
pub mod signals;
pub mod timeline;
pub mod types;
pub mod variants;

use crate::error::EdgepackError;
use crate::manifest::types::{ManifestState, OutputFormat};
use vstd::prelude::*;

verus! {

/// Generate a manifest string from the current state.
pub fn render_manifest(state: &ManifestState) -> (r: Result<String, EdgepackError>)
    ensures
        r matches Ok(t) && t@ == match state.format {
            OutputFormat::Hls => hls::media_playlist(*state),
            OutputFormat::Dash => dash::mpd_text(*state),
        },
{
    match state.format {
        OutputFormat::Hls => hls::render(state),
        OutputFormat::Dash => dash::render(state),
    }
}

/// Render an I-frame / trick play manifest.
///
/// - **HLS**: Returns the I-frame-only playlist (`#EXT-X-I-FRAMES-ONLY`).
/// - **DASH**: Returns `Ok(None)`; trick play is embedded in the regular MPD.
pub fn render_iframe_manifest(state: &ManifestState) -> (r: Result<Option<String>, EdgepackError>)
    ensures
        r matches Ok(t) && types::opt_text(t) == match state.format {
            OutputFormat::Hls => hls::iframe_playlist(*state),
            OutputFormat::Dash => None,
        },
{
    match state.format {
        OutputFormat::Hls => hls::render_iframe_playlist(state),
        OutputFormat::Dash => Ok(None),
    }
}

} // verus!
