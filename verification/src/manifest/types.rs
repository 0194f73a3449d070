//! What a manifest is made of.

use crate::decimal::Decimal;
use crate::drm::scheme::EncryptionScheme;
use crate::media::container::ContainerFormat;
use vstd::prelude::*;

verus! {

/// Output format for the repackaged content.
#[derive(Debug, Clone, Copy, PartialEq, Eq, Structural)]
pub enum OutputFormat {
    Hls,
    Dash,
}

impl OutputFormat {
    /// The media type of the manifest.
    pub fn content_type(&self) -> (name: &'static str)
        ensures
            name@ == match *self {
                OutputFormat::Hls => "application/vnd.apple.mpegurl"@,
                OutputFormat::Dash => "application/dash+xml"@,
            },
    {
        match self {
            OutputFormat::Hls => "application/vnd.apple.mpegurl",
            OutputFormat::Dash => "application/dash+xml",
        }
    }

    /// The file extension of the manifest.
    pub fn manifest_extension(&self) -> (name: &'static str)
        ensures
            name@ == match *self {
                OutputFormat::Hls => "m3u8"@,
                OutputFormat::Dash => "mpd"@,
            },
    {
        match self {
            OutputFormat::Hls => "m3u8",
            OutputFormat::Dash => "mpd",
        }
    }
}

/// Information about a single media segment.
#[derive(Debug, Clone)]
pub struct SegmentInfo {
    /// Segment sequence number (0-indexed).
    pub number: u32,
    /// Duration of the segment in seconds.
    pub duration: Decimal,
    /// URI path for this segment (relative to manifest).
    pub uri: String,
    /// Byte size of the segment.
    pub byte_size: u64,
    /// Key rotation period index for this segment. None = no rotation.
    pub key_period: Option<u32>,
}

/// Information about the init segment.
#[derive(Debug, Clone)]
pub struct InitSegmentInfo {
    /// URI path for the init segment.
    pub uri: String,
    /// Byte size of the init segment.
    pub byte_size: u64,
}

/// Representation/variant stream info for multi-bitrate content.
#[derive(Debug)]
pub struct VariantInfo {
    /// Track/representation ID.
    pub id: String,
    /// Bandwidth in bits per second.
    pub bandwidth: u64,
    /// Codec string (e.g., "avc1.64001f", "mp4a.40.2").
    pub codecs: String,
    /// Resolution (width x height) for video tracks.
    pub resolution: Option<(u32, u32)>,
    /// Frame rate for video tracks.
    pub frame_rate: Option<Decimal>,
    /// Track type.
    pub track_type: TrackMediaType,
    /// ISO 639-2/T language code (e.g., "eng", "und"). Used for audio/subtitle renditions.
    pub language: Option<String>,
    /// Path prefix of the variant's segments (e.g., "v/0/"), where it has one of its own.
    pub segment_path_prefix: Option<String>,
}

/// The kind of media in a track.
#[derive(Debug, Clone, Copy, PartialEq, Eq, Structural)]
pub enum TrackMediaType {
    Video,
    Audio,
    Subtitle,
}

/// DRM signaling information for manifests.
#[derive(Debug, Clone)]
pub struct ManifestDrmInfo {
    /// Encryption scheme used for this output.
    pub encryption_scheme: EncryptionScheme,
    /// Widevine PSSH box (base64-encoded full box).
    pub widevine_pssh: Option<String>,
    /// PlayReady PSSH / PRO (base64-encoded).
    pub playready_pssh: Option<String>,
    /// PlayReady content protection data (XML, for DASH).
    pub playready_pro: Option<String>,
    /// FairPlay key URI (for CBCS output with FairPlay).
    pub fairplay_key_uri: Option<String>,
    /// Default Key ID (hex string, no hyphens).
    pub default_kid: String,
    /// ClearKey PSSH (base64-encoded full PSSH box).
    pub clearkey_pssh: Option<String>,
}

/// SCTE-35 ad break information extracted from emsg boxes.
#[derive(Debug, Clone)]
pub struct AdBreakInfo {
    /// Splice event ID (from splice_insert).
    pub id: u32,
    /// Presentation time in seconds from stream start.
    pub presentation_time: Decimal,
    /// Break duration in seconds (None = unknown/unbounded).
    pub duration: Option<Decimal>,
    /// Base64-encoded splice_info_section (for HLS SCTE35-CMD).
    pub scte35_cmd: Option<String>,
    /// Segment number containing this splice point.
    pub segment_number: u32,
}

/// The content of an optional text.
pub open spec fn opt_text(t: Option<String>) -> Option<Seq<char>> {
    match t {
        Some(s) => Some(s@),
        None => None,
    }
}

/// The contents of a list of texts.
pub open spec fn texts(list: Seq<String>) -> Seq<Seq<char>> {
    list.map_values(|s: String| s@)
}

/// The content of an [`AdBreakInfo`].
pub struct AdBreakView {
    pub id: u32,
    pub presentation_time: Decimal,
    pub duration: Option<Decimal>,
    pub scte35_cmd: Option<Seq<char>>,
    pub segment_number: u32,
}

impl View for AdBreakInfo {
    type V = AdBreakView;

    open spec fn view(&self) -> AdBreakView {
        AdBreakView {
            id: self.id,
            presentation_time: self.presentation_time,
            duration: self.duration,
            scte35_cmd: opt_text(self.scte35_cmd),
            segment_number: self.segment_number,
        }
    }
}

/// I-frame byte range within a regular media segment.
///
/// For each rewritten video segment, records the byte offset and size
/// of the first independent (IDR) moof+mdat chunk. Used to build
/// HLS `#EXT-X-I-FRAMES-ONLY` playlists with `#EXT-X-BYTERANGE`
/// and DASH trick play `<AdaptationSet>`.
#[derive(Debug, Clone)]
pub struct IFrameSegmentInfo {
    /// Segment number (matches SegmentInfo.number).
    pub segment_number: u32,
    /// Byte offset of the IDR chunk within the segment.
    pub byte_offset: u64,
    /// Byte length of the IDR chunk.
    pub byte_length: u64,
    /// Duration of the parent segment in seconds.
    pub duration: Decimal,
    /// URI of the parent segment (same file, byte-ranged).
    pub segment_uri: String,
}

/// CEA-608/708 closed caption channel info for manifest signaling.
#[derive(Debug, Clone)]
pub struct CeaCaptionInfo {
    /// CEA service name (e.g., "CC1", "SERVICE1").
    pub service_name: String,
    /// Language code (e.g., "eng", "spa").
    pub language: String,
    /// Whether this is CEA-608 (true) or CEA-708 (false).
    pub is_608: bool,
}

/// Information about a CMAF part (LL-HLS partial segment).
#[derive(Debug, Clone)]
pub struct PartInfo {
    /// Parent segment number.
    pub segment_number: u32,
    /// Part index within the segment (0-indexed).
    pub part_index: u32,
    /// Duration of this part in seconds.
    pub duration: Decimal,
    /// Whether this part starts with an independent frame (IDR/sync).
    pub independent: bool,
    /// URI path for this part.
    pub uri: String,
    /// Byte size of the part.
    pub byte_size: u64,
}

/// LL-HLS server control parameters.
#[derive(Debug, Clone)]
pub struct ServerControl {
    /// CAN-SKIP-UNTIL: duration in seconds of skippable content.
    pub can_skip_until: Option<Decimal>,
    /// HOLD-BACK: server-recommended live edge distance in seconds.
    pub hold_back: Option<Decimal>,
    /// PART-HOLD-BACK: live edge distance for parts in seconds.
    pub part_hold_back: Option<Decimal>,
    /// CAN-BLOCK-RELOAD: server supports blocking playlist reload.
    pub can_block_reload: bool,
}

/// LL-DASH low-latency parameters.
#[derive(Debug, Clone)]
pub struct LowLatencyDashInfo {
    /// availabilityTimeOffset on SegmentTemplate (seconds).
    pub availability_time_offset: Decimal,
    /// availabilityTimeComplete (false = chunks available before segment complete).
    pub availability_time_complete: bool,
}

/// Part info from source manifest (input side).
#[derive(Debug, Clone)]
pub struct SourcePartInfo {
    /// Parent segment number (index into segment_urls).
    pub segment_number: u32,
    /// Part index within the segment.
    pub part_index: u32,
    /// Part duration in seconds.
    pub duration: Decimal,
    /// Whether this part is independent (starts with IDR frame).
    pub independent: bool,
    /// URL to fetch this part.
    pub uri: String,
}

/// The content of a [`SourcePartInfo`].
pub struct SourcePartView {
    pub segment_number: u32,
    pub part_index: u32,
    pub duration: Decimal,
    pub independent: bool,
    pub uri: Seq<char>,
}

impl View for SourcePartInfo {
    type V = SourcePartView;

    open spec fn view(&self) -> SourcePartView {
        SourcePartView {
            segment_number: self.segment_number,
            part_index: self.part_index,
            duration: self.duration,
            independent: self.independent,
            uri: self.uri@,
        }
    }
}

/// Where players ask which of several content paths to use.
#[derive(Debug, Clone)]
pub struct ContentSteeringConfig {
    /// URI of the steering server.
    pub server_uri: String,
    /// Pathway or service location to start with.
    pub default_pathway_id: Option<String>,
    /// Whether the server is asked before playback starts (DASH).
    pub query_before_start: Option<bool>,
}

/// The content of a [`ContentSteeringConfig`].
pub struct SteeringView {
    pub server_uri: Seq<char>,
    pub default_pathway_id: Option<Seq<char>>,
    pub query_before_start: Option<bool>,
}

impl View for ContentSteeringConfig {
    type V = SteeringView;

    open spec fn view(&self) -> SteeringView {
        SteeringView {
            server_uri: self.server_uri@,
            default_pathway_id: opt_text(self.default_pathway_id),
            query_before_start: self.query_before_start,
        }
    }
}

/// A variant stream of a source manifest.
#[derive(Debug, Clone)]
pub struct SourceVariantInfo {
    /// Bandwidth in bits per second.
    pub bandwidth: u64,
    /// Width in pixels.
    pub width: Option<u32>,
    /// Height in pixels.
    pub height: Option<u32>,
    /// Codec string.
    pub codecs: Option<String>,
    /// Frame rate as written in the manifest.
    pub frame_rate: Option<String>,
}

/// The content of a [`SourceVariantInfo`].
pub struct SourceVariantView {
    pub bandwidth: u64,
    pub width: Option<u32>,
    pub height: Option<u32>,
    pub codecs: Option<Seq<char>>,
    pub frame_rate: Option<Seq<char>>,
}

impl View for SourceVariantInfo {
    type V = SourceVariantView;

    open spec fn view(&self) -> SourceVariantView {
        SourceVariantView {
            bandwidth: self.bandwidth,
            width: self.width,
            height: self.height,
            codecs: opt_text(self.codecs),
            frame_rate: opt_text(self.frame_rate),
        }
    }
}

/// A member of an HLS rendition group.
#[derive(Debug, Clone)]
pub struct HlsRenditionInfo {
    /// URI of the rendition's playlist; closed captions have none.
    pub uri: Option<String>,
    /// Name of the rendition.
    pub name: String,
    /// Language of the rendition.
    pub language: Option<String>,
    /// The group it belongs to.
    pub group_id: String,
    /// Whether it is the one to play by default.
    pub is_default: bool,
}

/// The content of an [`HlsRenditionInfo`].
pub struct RenditionView {
    pub uri: Option<Seq<char>>,
    pub name: Seq<char>,
    pub language: Option<Seq<char>>,
    pub group_id: Seq<char>,
    pub is_default: bool,
}

impl View for HlsRenditionInfo {
    type V = RenditionView;

    open spec fn view(&self) -> RenditionView {
        RenditionView {
            uri: opt_text(self.uri),
            name: self.name@,
            language: opt_text(self.language),
            group_id: self.group_id@,
            is_default: self.is_default,
        }
    }
}

/// A single-file source whose segments are found through its segment index.
#[derive(Debug)]
pub struct SegmentBaseSource {
    /// URL of the file.
    pub file_url: String,
    /// Byte range of the initialization data (start, end inclusive).
    pub init_range: (u64, u64),
    /// Byte range of the sidx box (start, end inclusive).
    pub index_range: (u64, u64),
    /// Timescale for durations.
    pub timescale: u64,
}

/// The content of a [`SegmentBaseSource`].
pub struct SegmentBaseView {
    pub file_url: Seq<char>,
    pub init_range: (u64, u64),
    pub index_range: (u64, u64),
    pub timescale: u64,
}

impl View for SegmentBaseSource {
    type V = SegmentBaseView;

    open spec fn view(&self) -> SegmentBaseView {
        SegmentBaseView {
            file_url: self.file_url@,
            init_range: self.init_range,
            index_range: self.index_range,
            timescale: self.timescale,
        }
    }
}

/// The persistent state of a manifest being progressively built.
#[derive(Debug)]
pub struct ManifestState {
    /// Content identifier.
    pub content_id: String,
    /// Output format.
    pub format: OutputFormat,
    /// Current lifecycle phase.
    pub phase: ManifestPhase,
    /// Init segment info (set once after first segment).
    pub init_segment: Option<InitSegmentInfo>,
    /// Completed segments in order.
    pub segments: Vec<SegmentInfo>,
    /// Target segment duration (for HLS EXT-X-TARGETDURATION).
    pub target_duration: Decimal,
    /// Variant/representation info.
    pub variants: Vec<VariantInfo>,
    /// DRM signaling data for manifest.
    pub drm_info: Option<ManifestDrmInfo>,
    /// Media sequence number (HLS).
    pub media_sequence: u32,
    /// Base URL path for segments.
    pub base_url: String,
    /// Container format (CMAF or fMP4).
    pub container_format: ContainerFormat,
    /// CEA-608/708 closed caption channels (embedded in video, signaled in manifest).
    pub cea_captions: Vec<CeaCaptionInfo>,
    /// SCTE-35 ad break markers extracted from emsg boxes.
    pub ad_breaks: Vec<AdBreakInfo>,
    /// Key rotation: per-period DRM info (indexed by key_period % len).
    pub rotation_drm_info: Vec<ManifestDrmInfo>,
    /// Clear lead: segment number boundary where encryption starts.
    pub clear_lead_boundary: Option<u32>,
    /// LL-HLS parts (partial segments).
    pub parts: Vec<PartInfo>,
    /// LL-HLS part target duration (EXT-X-PART-INF:PART-TARGET).
    pub part_target_duration: Option<Decimal>,
    /// LL-HLS server control parameters.
    pub server_control: Option<ServerControl>,
    /// LL-DASH low-latency parameters.
    pub ll_dash_info: Option<LowLatencyDashInfo>,
    /// I-frame byte ranges for each video segment (for HLS I-Frame playlists, DASH trick play).
    pub iframe_segments: Vec<IFrameSegmentInfo>,
    /// Whether trick play / I-frame playlist generation is enabled for this content.
    pub enable_iframe_playlist: bool,
    /// DVR sliding window duration in seconds. When set and phase is Live,
    /// manifests only render segments within this window from the live edge.
    /// When None, all segments are rendered (EVENT playlist for HLS).
    pub dvr_window_duration: Option<Decimal>,
    /// Content steering, signaled in master playlists.
    pub content_steering: Option<ContentSteeringConfig>,
}

/// Lifecycle phase of the manifest.
#[derive(Debug, Clone, Copy, PartialEq, Eq, Structural)]
pub enum ManifestPhase {
    /// No segments processed yet.
    AwaitingFirstSegment,
    /// Manifest is live/dynamic, segments are being added.
    Live,
    /// All segments processed, manifest is finalized.
    Complete,
}

/// Something that belongs to a segment.
pub trait InSegment {
    /// The number of the segment.
    spec fn place(&self) -> u32;

    /// The number of the segment.
    fn segment(&self) -> (n: u32)
        ensures
            n == self.place(),
    ;
}

impl InSegment for IFrameSegmentInfo {
    open spec fn place(&self) -> u32 {
        self.segment_number
    }

    fn segment(&self) -> (n: u32) {
        self.segment_number
    }
}

impl InSegment for PartInfo {
    open spec fn place(&self) -> u32 {
        self.segment_number
    }

    fn segment(&self) -> (n: u32) {
        self.segment_number
    }
}

impl InSegment for AdBreakInfo {
    open spec fn place(&self) -> u32 {
        self.segment_number
    }

    fn segment(&self) -> (n: u32) {
        self.segment_number
    }
}

/// Those of the first `n` items that belong to one of the segments `first` to `last`.
pub open spec fn placed_between<T: InSegment>(items: Seq<T>, first: u32, last: u32, n: nat) -> Seq<T>
    decreases n,
{
    if n == 0 {
        Seq::empty()
    } else if first <= items[n - 1].place() <= last {
        placed_between(items, first, last, (n - 1) as nat).push(items[n - 1])
    } else {
        placed_between(items, first, last, (n - 1) as nat)
    }
}

/// What a list of references points to.
pub open spec fn targets<T>(refs: Seq<&T>) -> Seq<T> {
    refs.map_values(|r: &T| *r)
}

/// References to all items.
fn all_refs<T>(items: &Vec<T>) -> (out: Vec<&T>)
    ensures
        targets(out@) == items@,
{
    let mut out: Vec<&T> = Vec::new();
    let mut i: usize = 0;
    while i < items.len()
        invariant
            i <= items.len(),
            targets(out@) == items@.subrange(0, i as int),
        decreases items.len() - i,
    {
        let ghost before = out@;
        out.push(&items[i]);
        assert(targets(out@) =~= targets(before).push(items@[i as int]));
        i = i + 1;
        assert(items@.subrange(0, i - 1).push(items@[i - 1]) =~= items@.subrange(0, i as int));
    }
    assert(items@.subrange(0, items@.len() as int) =~= items@);
    out
}

/// References to the items that belong to one of the segments `first` to `last`.
fn refs_between<T: InSegment>(items: &Vec<T>, first: u32, last: u32) -> (out: Vec<&T>)
    ensures
        targets(out@) == placed_between(items@, first, last, items@.len()),
{
    let mut out: Vec<&T> = Vec::new();
    let mut i: usize = 0;
    assert(targets(out@) =~= Seq::empty());
    while i < items.len()
        invariant
            i <= items.len(),
            targets(out@) == placed_between(items@, first, last, i as nat),
        decreases items.len() - i,
    {
        let n: u32 = items[i].segment();
        if first <= n && n <= last {
            let ghost before = out@;
            out.push(&items[i]);
            assert(targets(out@) =~= targets(before).push(items@[i as int]));
        }
        i = i + 1;
    }
    out
}

/// The first of the segments that lie within `window` of the end, when those from `i` on do
/// and last `acc`.
pub open spec fn window_start(
    segments: Seq<SegmentInfo>,
    window: Decimal,
    i: nat,
    acc: Decimal,
) -> nat
    decreases i,
{
    if i == 0 {
        0
    } else if acc.sum(segments[i - 1].duration).nanos > window.nanos {
        i
    } else {
        window_start(segments, window, (i - 1) as nat, acc.sum(segments[i - 1].duration))
    }
}

impl ManifestState {
    /// Whether the DVR window is active.
    pub open spec fn dvr_active(&self) -> bool {
        self.phase is Live && self.dvr_window_duration is Some
            && self.dvr_window_duration->0.nanos > 0
    }

    /// The index of the first segment in the DVR window.
    pub open spec fn first_shown(&self) -> nat {
        if self.dvr_active() {
            window_start(
                self.segments@,
                self.dvr_window_duration->0,
                self.segments@.len(),
                Decimal { nanos: 0 },
            )
        } else {
            0
        }
    }

    /// The segments in the DVR window.
    pub open spec fn shown_segments(&self) -> Seq<SegmentInfo> {
        self.segments@.subrange(self.first_shown() as int, self.segments@.len() as int)
    }

    /// The media sequence number of the first segment in the DVR window.
    pub open spec fn shown_sequence(&self) -> u32 {
        if self.dvr_active() && self.shown_segments().len() > 0 {
            self.shown_segments()[0].number
        } else {
            self.media_sequence
        }
    }

    /// Those of the items that belong to a segment in the DVR window.
    pub open spec fn shown_items<T: InSegment>(&self, items: Seq<T>) -> Seq<T> {
        let shown = self.shown_segments();
        if shown.len() == self.segments@.len() {
            items
        } else if shown.len() == 0 {
            Seq::empty()
        } else {
            placed_between(items, shown[0].number, shown.last().number, items.len())
        }
    }

    /// A manifest without segments.
    pub fn new(
        content_id: String,
        format: OutputFormat,
        base_url: String,
        container_format: ContainerFormat,
    ) -> (s: ManifestState)
        ensures
            s.content_id@ == content_id@,
            s.format == format,
            s.phase is AwaitingFirstSegment,
            s.init_segment is None,
            s.segments@.len() == 0,
            s.target_duration.nanos == 6_000_000_000,
            s.variants@.len() == 0,
            s.drm_info is None,
            s.media_sequence == 0,
            s.base_url@ == base_url@,
            s.container_format == container_format,
            s.cea_captions@.len() == 0,
            s.ad_breaks@.len() == 0,
            s.rotation_drm_info@.len() == 0,
            s.clear_lead_boundary is None,
            s.parts@.len() == 0,
            s.part_target_duration is None,
            s.server_control is None,
            s.ll_dash_info is None,
            s.iframe_segments@.len() == 0,
            !s.enable_iframe_playlist,
            s.dvr_window_duration is None,
            s.content_steering is None,
    {
        ManifestState {
            content_id,
            format,
            phase: ManifestPhase::AwaitingFirstSegment,
            init_segment: None,
            segments: Vec::new(),
            target_duration: Decimal::from_units(6),
            variants: Vec::new(),
            drm_info: None,
            media_sequence: 0,
            base_url,
            container_format,
            cea_captions: Vec::new(),
            ad_breaks: Vec::new(),
            rotation_drm_info: Vec::new(),
            clear_lead_boundary: None,
            parts: Vec::new(),
            part_target_duration: None,
            server_control: None,
            ll_dash_info: None,
            iframe_segments: Vec::new(),
            enable_iframe_playlist: false,
            dvr_window_duration: None,
            content_steering: None,
        }
    }

    /// Whether all segments were processed.
    pub fn is_complete(&self) -> (yes: bool)
        ensures
            yes == (self.phase is Complete),
    {
        match self.phase {
            ManifestPhase::Complete => true,
            _ => false,
        }
    }

    /// Whether the DVR window is active (set and phase is Live).
    pub fn is_dvr_active(&self) -> (yes: bool)
        ensures
            yes == self.dvr_active(),
    {
        match (self.dvr_window_duration, self.phase) {
            (Some(w), ManifestPhase::Live) => w.nanos > 0,
            _ => false,
        }
    }

    /// Return the slice of segments visible within the DVR window.
    ///
    /// If `dvr_window_duration` is `None` or phase is `Complete`, returns all segments.
    /// Otherwise, returns segments from the live edge backward within the window duration.
    pub fn windowed_segments(&self) -> (shown: &[SegmentInfo])
        ensures
            shown@ == self.shown_segments(),
            self.first_shown() <= self.segments@.len(),
    {
        let total: usize = self.segments.len();
        if !self.is_dvr_active() {
            assert(self.segments@.subrange(0, self.segments@.len() as int) =~= self.segments@);
            return self.segments.as_slice();
        }
        let window: Decimal = match self.dvr_window_duration {
            Some(w) => w,
            None => Decimal { nanos: 0 },
        };
        let mut acc: Decimal = Decimal { nanos: 0 };
        let mut i: usize = total;
        while i > 0
            invariant
                i <= total,
                total == self.segments.len(),
                self.dvr_active(),
                window == self.dvr_window_duration->0,
                self.first_shown() == window_start(
                    self.segments@,
                    window,
                    i as nat,
                    acc,
                ),
            decreases i,
        {
            let next: Decimal = acc.plus(self.segments[i - 1].duration);
            if next.nanos > window.nanos {
                return &self.segments.as_slice()[i..total];
            }
            acc = next;
            i = i - 1;
        }
        assert(self.segments@.subrange(0, self.segments@.len() as int) =~= self.segments@);
        self.segments.as_slice()
    }

    /// The media_sequence value for the first segment in the DVR window.
    pub fn windowed_media_sequence(&self) -> (n: u32)
        ensures
            n == self.shown_sequence(),
    {
        if self.is_dvr_active() {
            let shown: &[SegmentInfo] = self.windowed_segments();
            if shown.len() > 0 {
                return shown[0].number;
            }
        }
        self.media_sequence
    }

    /// Those of the items that belong to a segment in the DVR window.
    fn items_in_window<'a, T: InSegment>(&self, items: &'a Vec<T>) -> (out: Vec<&'a T>)
        ensures
            targets(out@) == self.shown_items(items@),
    {
        let shown: &[SegmentInfo] = self.windowed_segments();
        if shown.len() == self.segments.len() {
            return all_refs(items);
        }
        if shown.len() == 0 {
            let none: Vec<&'a T> = Vec::new();
            assert(targets(none@) =~= Seq::empty());
            return none;
        }
        refs_between(items, shown[0].number, shown[shown.len() - 1].number)
    }

    /// Return I-frame segment infos filtered to the DVR window.
    pub fn windowed_iframe_segments(&self) -> (out: Vec<&IFrameSegmentInfo>)
        ensures
            targets(out@) == self.shown_items(self.iframe_segments@),
    {
        self.items_in_window(&self.iframe_segments)
    }

    /// Return parts filtered to the DVR window.
    pub fn windowed_parts(&self) -> (out: Vec<&PartInfo>)
        ensures
            targets(out@) == self.shown_items(self.parts@),
    {
        self.items_in_window(&self.parts)
    }

    /// Return ad breaks filtered to the DVR window.
    pub fn windowed_ad_breaks(&self) -> (out: Vec<&AdBreakInfo>)
        ensures
            targets(out@) == self.shown_items(self.ad_breaks@),
    {
        self.items_in_window(&self.ad_breaks)
    }
}

/// Parsed source manifest information (input side).
///
/// Extracted from an HLS M3U8 or DASH MPD source manifest. Contains
/// the URLs needed to fetch init and media segments from the origin.
#[derive(Debug)]
pub struct SourceManifest {
    /// URL of the init segment.
    pub init_segment_url: String,
    /// URLs of all media segments in order.
    pub segment_urls: Vec<String>,
    /// Duration of each media segment in seconds.
    pub segment_durations: Vec<Decimal>,
    /// Whether the source is a live/dynamic stream.
    pub is_live: bool,
    /// Encryption scheme detected from manifest DRM signaling.
    /// `None` if not signaled in the manifest (will be detected from init segment instead).
    pub source_scheme: Option<EncryptionScheme>,
    /// Ad break markers parsed from source manifest (HLS EXT-X-DATERANGE, DASH EventStream).
    pub ad_breaks: Vec<AdBreakInfo>,
    /// LL-HLS parts parsed from source manifest.
    pub parts: Vec<SourcePartInfo>,
    /// LL-HLS part target duration.
    pub part_target_duration: Option<Decimal>,
    /// LL-HLS server control parameters.
    pub server_control: Option<ServerControl>,
    /// LL-DASH low-latency parameters.
    pub ll_dash_info: Option<LowLatencyDashInfo>,
    /// Whether the source uses MPEG-TS segments (detected from .ts extension).
    pub is_ts_source: bool,
    /// AES-128 key URL for TS segment decryption.
    pub aes128_key_url: Option<String>,
    /// AES-128 IV for TS segment decryption (hex-decoded from manifest).
    pub aes128_iv: Option<[u8; 16]>,
    /// Content steering announced by the source.
    pub content_steering: Option<ContentSteeringConfig>,
    /// Byte range of the init segment (start, end inclusive), for single-file sources.
    pub init_byte_range: Option<(u64, u64)>,
    /// Byte ranges of the media segments, for single-file sources.
    pub segment_byte_ranges: Vec<(u64, u64)>,
    /// The single file whose segment index is still to be read.
    pub segment_base: Option<SegmentBaseSource>,
    /// Variant streams of the source.
    pub source_variants: Vec<SourceVariantInfo>,
}

/// The content of a [`SourceManifest`].
pub struct SourceView {
    pub init_segment_url: Seq<char>,
    pub segment_urls: Seq<Seq<char>>,
    pub segment_durations: Seq<Decimal>,
    pub is_live: bool,
    pub source_scheme: Option<EncryptionScheme>,
    pub ad_breaks: Seq<AdBreakView>,
    pub parts: Seq<SourcePartView>,
    pub part_target_duration: Option<Decimal>,
    pub server_control: Option<ServerControl>,
    pub ll_dash_info: Option<LowLatencyDashInfo>,
    pub is_ts_source: bool,
    pub aes128_key_url: Option<Seq<char>>,
    pub aes128_iv: Option<Seq<u8>>,
    pub content_steering: Option<SteeringView>,
    pub init_byte_range: Option<(u64, u64)>,
    pub segment_byte_ranges: Seq<(u64, u64)>,
    pub segment_base: Option<SegmentBaseView>,
    pub source_variants: Seq<SourceVariantView>,
}

/// The contents of a list of ad breaks.
pub open spec fn breaks_view(list: Seq<AdBreakInfo>) -> Seq<AdBreakView> {
    list.map_values(|b: AdBreakInfo| b@)
}

/// The contents of a list of parts.
pub open spec fn parts_view(list: Seq<SourcePartInfo>) -> Seq<SourcePartView> {
    list.map_values(|p: SourcePartInfo| p@)
}

/// The contents of a list of variants.
pub open spec fn variants_view(list: Seq<SourceVariantInfo>) -> Seq<SourceVariantView> {
    list.map_values(|v: SourceVariantInfo| v@)
}

/// The content of an optional content steering.
pub open spec fn opt_steering(c: Option<ContentSteeringConfig>) -> Option<SteeringView> {
    match c {
        Some(s) => Some(s@),
        None => None,
    }
}

/// The content of an optional array of sixteen bytes.
pub open spec fn opt_iv(iv: Option<[u8; 16]>) -> Option<Seq<u8>> {
    match iv {
        Some(b) => Some(b@),
        None => None,
    }
}

impl View for SourceManifest {
    type V = SourceView;

    open spec fn view(&self) -> SourceView {
        SourceView {
            init_segment_url: self.init_segment_url@,
            segment_urls: texts(self.segment_urls@),
            segment_durations: self.segment_durations@,
            is_live: self.is_live,
            source_scheme: self.source_scheme,
            ad_breaks: breaks_view(self.ad_breaks@),
            parts: parts_view(self.parts@),
            part_target_duration: self.part_target_duration,
            server_control: self.server_control,
            ll_dash_info: self.ll_dash_info,
            is_ts_source: self.is_ts_source,
            aes128_key_url: opt_text(self.aes128_key_url),
            aes128_iv: opt_iv(self.aes128_iv),
            content_steering: opt_steering(self.content_steering),
            init_byte_range: self.init_byte_range,
            segment_byte_ranges: self.segment_byte_ranges@,
            segment_base: match self.segment_base {
                Some(b) => Some(b@),
                None => None,
            },
            source_variants: variants_view(self.source_variants@),
        }
    }
}

/// How long the segments from `from` to `to` last, added up from the last one.
pub open spec fn lasting(segments: Seq<SegmentInfo>, from: int, to: int) -> Decimal
    decreases to - from,
{
    if from >= to {
        Decimal { nanos: 0 }
    } else {
        lasting(segments, from + 1, to).sum(segments[from].duration)
    }
}

proof fn lemma_window(segments: Seq<SegmentInfo>, window: Decimal, i: nat, acc: Decimal)
    requires
        i <= segments.len(),
        acc == lasting(segments, i as int, segments.len() as int),
        acc.nanos <= window.nanos,
    ensures
        ({
            let k = window_start(segments, window, i, acc) as int;
            &&& 0 <= k <= i
            &&& lasting(segments, k, segments.len() as int).nanos <= window.nanos
            &&& k > 0 ==> lasting(segments, k - 1, segments.len() as int).nanos > window.nanos
        }),
    decreases i,
{
    if i > 0 {
        let more = acc.sum(segments[i - 1].duration);
        assert(lasting(segments, i - 1, segments.len() as int) == more);
        if more.nanos <= window.nanos {
            lemma_window(segments, window, (i - 1) as nat, more);
        }
    }
}

/// An active DVR window shows the last segments: they fit into the window, and one more would
/// not.
pub proof fn window_shows_what_fits(s: ManifestState)
    requires
        s.dvr_active(),
    ensures
        ({
            let n = s.segments@.len() as int;
            let first = s.first_shown() as int;
            let window = s.dvr_window_duration->0;
            &&& 0 <= first <= n
            &&& s.shown_segments() == s.segments@.subrange(first, n)
            &&& lasting(s.segments@, first, n).nanos <= window.nanos
            &&& first > 0 ==> lasting(s.segments@, first - 1, n).nanos > window.nanos
        }),
{
    lemma_window(
        s.segments@,
        s.dvr_window_duration->0,
        s.segments@.len(),
        Decimal { nanos: 0 },
    );
}

/// Without an active DVR window everything is shown.
pub proof fn everything_is_shown_without_a_window<T: InSegment>(s: ManifestState, items: Seq<T>)
    requires
        !s.dvr_active(),
    ensures
        s.shown_segments() == s.segments@,
        s.shown_sequence() == s.media_sequence,
        s.shown_items(items) == items,
{
    assert(s.shown_segments() =~= s.segments@);
}

proof fn lemma_placed<T: InSegment>(items: Seq<T>, first: u32, last: u32, n: nat)
    requires
        n <= items.len(),
    ensures
        forall|k: int|
            0 <= k < placed_between(items, first, last, n).len() ==> first <= (
            #[trigger] placed_between(items, first, last, n)[k]).place() <= last,
        forall|i: int|
            0 <= i < n && first <= (#[trigger] items[i]).place() <= last ==> placed_between(
                items,
                first,
                last,
                n,
            ).contains(items[i]),
    decreases n,
{
    if n > 0 {
        lemma_placed(items, first, last, (n - 1) as nat);
        let before = placed_between(items, first, last, (n - 1) as nat);
        let now = placed_between(items, first, last, n);
        assert forall|i: int|
            0 <= i < n && first <= (#[trigger] items[i]).place() <= last implies now.contains(
            items[i],
        ) by {
            if i < n - 1 {
                let k = before.index_of(items[i]);
                assert(now[k] == items[i]);
            } else {
                assert(now[before.len() as int] == items[i]);
            }
        }
    }
}

/// When the DVR window leaves segments out, the items shown are those that belong to the
/// segments shown, from the first to the last of them; none where no segment is shown.
pub proof fn window_shows_items_of_its_segments<T: InSegment>(s: ManifestState, items: Seq<T>)
    requires
        s.shown_segments().len() < s.segments@.len(),
    ensures
        ({
            let shown = s.shown_segments();
            let kept = s.shown_items(items);
            let first = shown[0].number;
            let last = shown.last().number;
            &&& forall|k: int|
                0 <= k < kept.len() ==> shown.len() > 0 && first <= (
                #[trigger] kept[k]).place() <= last
            &&& forall|i: int|
                0 <= i < items.len() && shown.len() > 0 && first <= (
                #[trigger] items[i]).place() <= last ==> kept.contains(items[i])
        }),
{
    let shown = s.shown_segments();
    if shown.len() > 0 {
        lemma_placed(items, shown[0].number, shown.last().number, items.len());
    }
}

} // verus!
