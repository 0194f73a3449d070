//! DASH MPD source manifest input parser.
//!
//! Parses a DASH MPD to extract init segment URL, media segment URLs,
//! durations, and live/VOD status. This is the *input* side; the output
//! renderer is in `dash.rs`.

use crate::bytes;
use crate::chars;
use crate::decimal;
use crate::decimal::Decimal;
use crate::drm::scheme::EncryptionScheme;
use crate::error::{EdgepackError, ErrorView};
use crate::manifest::hls_input;
use crate::manifest::types;
use crate::manifest::types::{
    AdBreakInfo, AdBreakView, ContentSteeringConfig, LowLatencyDashInfo, SegmentBaseSource,
    SegmentBaseView, SourceManifest, SourceView, SteeringView,
};
use crate::media::cmaf;
use crate::text;
use crate::url;
use crate::url::{Url, UrlView};
use crate::xml;
use crate::xml::{Attribute, EventView, XmlEvent};
use vstd::prelude::*;

verus! {

/// Attributes as name and value; one that could not be read is `None`.
pub type AttrSeq = Seq<Option<(Seq<u8>, Seq<u8>)>>;

/// Whether bytes are the UTF-8 form of a text.
pub open spec fn named(name: Seq<u8>, t: Seq<char>) -> bool {
    name == cmaf::utf8(t)
}

/// Whether bytes are the UTF-8 form of a text.
fn is_named(name: &[u8], t: &str) -> (yes: bool)
    ensures
        yes == named(name@, t@),
{
    bytes::same_bytes(name, t.as_bytes())
}

/// The value of the last of the first `n` attributes with a name.
pub open spec fn last_value(attrs: AttrSeq, key: Seq<char>, n: nat) -> Option<Seq<u8>>
    decreases n,
{
    if n == 0 {
        None
    } else {
        match attrs[n - 1] {
            Some((k, v)) if named(k, key) => Some(v),
            _ => last_value(attrs, key, (n - 1) as nat),
        }
    }
}

/// The text of the last attribute with a name.
pub open spec fn attr(attrs: AttrSeq, key: Seq<char>) -> Option<Seq<char>> {
    match last_value(attrs, key, attrs.len()) {
        Some(v) => Some(text::lossy_text(v)),
        None => None,
    }
}

/// The text of the last attribute with a name.
fn attr_text(attrs: &Vec<Option<Attribute>>, key: &str) -> (value: Option<String>)
    ensures
        types::opt_text(value) == attr(xml::attributes_view(attrs@), key@),
{
    let ghost views = xml::attributes_view(attrs@);
    let mut found: Option<usize> = None;
    let mut i: usize = 0;
    while i < attrs.len()
        invariant
            i <= attrs.len(),
            views == xml::attributes_view(attrs@),
            match found {
                Some(k) => k < i && attrs@[k as int] is Some && last_value(views, key@, i as nat)
                    == Some((attrs@[k as int]->0).1@),
                None => last_value(views, key@, i as nat) is None,
            },
        decreases attrs.len() - i,
    {
        assert(views[i as int] == xml::attribute_view(attrs@[i as int]));
        if let Some(a) = &attrs[i] {
            if is_named(a.0.as_slice(), key) {
                found = Some(i);
            }
        }
        i = i + 1;
    }
    assert(views.len() == attrs@.len());
    match found {
        Some(k) => match &attrs[k] {
            Some(a) => Some(text::utf8_lossy(a.1.as_slice())),
            None => None,
        },
        None => None,
    }
}

/// The whole number in an attribute.
pub open spec fn number_in(value: Option<Seq<char>>, max: nat) -> Option<nat> {
    match value {
        Some(v) => chars::number_of(v, max),
        None => None,
    }
}

/// The whole number in an attribute.
fn parse_number(value: Option<String>, max: u64) -> (n: Option<u64>)
    ensures
        chars::opt_nat(n) == number_in(types::opt_text(value), max as nat),
        n matches Some(v) ==> v <= max,
{
    match value {
        Some(v) => chars::parse_number(chars::chars_of(v.as_str()).as_slice(), max),
        None => None,
    }
}

/// A number that takes the place of a value: `before` where there is none, `fallback` where
/// it is no number.
pub open spec fn number_or(value: Option<Seq<char>>, max: nat, before: nat, fallback: nat) -> nat {
    match value {
        None => before,
        Some(v) => match chars::number_of(v, max) {
            Some(n) => n,
            None => fallback,
        },
    }
}

/// A number that takes the place of a value.
fn parse_number_or(value: Option<String>, max: u64, before: u64, fallback: u64) -> (n: u64)
    requires
        before <= max,
        fallback <= max,
    ensures
        n == number_or(types::opt_text(value), max as nat, before as nat, fallback as nat),
        n <= max,
{
    match value {
        None => before,
        Some(v) => match chars::parse_number(chars::chars_of(v.as_str()).as_slice(), max) {
            Some(n) => n,
            None => fallback,
        },
    }
}

/// Start and end of a byte range such as `0-822`.
pub open spec fn byte_range(s: Seq<char>) -> Option<(u64, u64)> {
    let parts = chars::pieces(s, '-');
    if parts.len() == 2 {
        match (
            chars::number_of(parts[0], u64::MAX as nat),
            chars::number_of(parts[1], u64::MAX as nat),
        ) {
            (Some(a), Some(b)) => Some((a as u64, b as u64)),
            _ => None,
        }
    } else {
        None
    }
}

/// Parse a byte range string like "0-822" into (start, end) tuple.
pub fn parse_byte_range(s: &str) -> (range: Option<(u64, u64)>)
    ensures
        range == byte_range(s@),
{
    let chars: Vec<char> = chars::chars_of(s);
    let parts: Vec<Vec<char>> = chars::split(chars.as_slice(), '-');
    assert(chars::texts_view(parts@).len() == parts@.len());
    if parts.len() != 2 {
        return None;
    }
    assert(chars::texts_view(parts@)[0] == parts@[0]@);
    assert(chars::texts_view(parts@)[1] == parts@[1]@);
    match (
        chars::parse_number(parts[0].as_slice(), u64::MAX),
        chars::parse_number(parts[1].as_slice(), u64::MAX),
    ) {
        (Some(a), Some(b)) => Some((a, b)),
        _ => None,
    }
}

/// The number in `digits`, zero where it is none, times `unit`.
pub open spec fn scaled(digits: Seq<char>, unit: int) -> Decimal {
    match decimal::decimal_of(digits) {
        Some(d) => d.taken(unit),
        None => Decimal { nanos: 0 },
    }
}

/// The duration that the characters from `i` on add to `total`; `digits` were read since the
/// last unit.
pub open spec fn duration_from(s: Seq<char>, i: int, digits: Seq<char>, total: Decimal) -> Decimal
    decreases s.len() - i,
{
    if i < 0 || i >= s.len() {
        total
    } else if s[i] == 'H' || s[i] == 'M' || s[i] == 'S' {
        let unit: int = if s[i] == 'H' {
            3600
        } else if s[i] == 'M' {
            60
        } else {
            1
        };
        duration_from(
            s,
            i + 1,
            Seq::empty(),
            total.sum(scaled(digits, unit)),
        )
    } else {
        duration_from(s, i + 1, digits.push(s[i]), total)
    }
}

/// The duration that an ISO 8601 text such as `PT1H30M0S` stands for; none unless it is
/// longer than zero.
pub open spec fn duration_of(s: Seq<char>) -> Option<Decimal> {
    if !chars::starts(s, "PT"@) {
        None
    } else {
        let d = duration_from(
            s.subrange(2, s.len() as int),
            0,
            Seq::empty(),
            Decimal { nanos: 0 },
        );
        if d.nanos > 0 {
            Some(d)
        } else {
            None
        }
    }
}

/// Parse an ISO 8601 duration (e.g., "PT1H30M0S") into seconds.
pub fn parse_iso8601_duration(text: &str) -> (d: Option<Decimal>)
    ensures
        d == duration_of(text@),
{
    let chars: Vec<char> = chars::chars_of(text);
    proof {
        reveal_strlit("PT");
    }
    if !chars::starts_with(chars.as_slice(), "PT") {
        return None;
    }
    let s: &[char] = &chars.as_slice()[2..chars.len()];
    let mut digits: Vec<char> = Vec::new();
    let mut total: Decimal = Decimal { nanos: 0 };
    let mut i: usize = 0;
    assert(digits@ =~= Seq::empty());
    while i < s.len()
        invariant
            i <= s.len(),
            duration_from(s@, 0, Seq::empty(), Decimal { nanos: 0 }) == duration_from(
                s@,
                i as int,
                digits@,
                total,
            ),
        decreases s.len() - i,
    {
        let c: char = s[i];
        if c == 'H' || c == 'M' || c == 'S' {
            let unit: u16 = if c == 'H' {
                3600
            } else if c == 'M' {
                60
            } else {
                1
            };
            let more: Decimal = match Decimal::parse(digits.as_slice()) {
                Some(d) => d.times(unit),
                None => Decimal { nanos: 0 },
            };
            assert(more == scaled(digits@, unit as int));
            total = total.plus(more);
            digits = Vec::new();
            assert(digits@ =~= Seq::empty());
        } else {
            digits.push(c);
        }
        i = i + 1;
    }
    if total.nanos > 0 {
        Some(total)
    } else {
        None
    }
}

/// An event that was opened and not closed yet.
pub struct PendingView {
    pub id: u32,
    pub time: u64,
    pub duration: Option<u64>,
    pub text: Seq<char>,
}

/// A representation in a single file with a segment index.
pub struct RepresentationView {
    pub base: Seq<char>,
    pub init_range: (u64, u64),
    pub index_range: (u64, u64),
    pub timescale: u64,
    pub is_video: bool,
}

/// What was read of an MPD so far.
pub struct MpdView {
    pub live: bool,
    pub total: Option<Decimal>,
    pub scheme: Option<EncryptionScheme>,
    pub init_template: Option<Seq<char>>,
    pub media_template: Option<Seq<char>>,
    pub timescale: u64,
    pub start_number: u32,
    /// Duration in ticks and repeat count of each timeline entry.
    pub timeline: Seq<(u64, u32)>,
    pub uniform: Option<u64>,
    /// The absolute base URL above all representations.
    pub base_override: Option<Seq<char>>,
    /// Whether the template of a video set was taken.
    pub video_template: bool,
    /// Whether timeline entries belong to the template that is being taken.
    pub capturing: bool,
    pub latency: Option<LowLatencyDashInfo>,
    pub steering: Option<SteeringView>,
    pub breaks: Seq<AdBreakView>,
    pub in_events: bool,
    pub event_scale: u64,
    pub pending: Option<PendingView>,
    pub in_set: bool,
    pub set_is_video: bool,
    pub in_representation: bool,
    /// Whether the text of a base URL is to come.
    pub base_ahead: bool,
    pub rep_base: Option<Seq<char>>,
    pub rep_index: Option<(u64, u64)>,
    pub rep_scale: u64,
    pub rep_init: Option<(u64, u64)>,
    pub in_segment_base: bool,
    pub found: Option<RepresentationView>,
}

/// Whether the first `n` attributes of a set say that it is video; `so_far` before them.
pub open spec fn set_video(attrs: AttrSeq, n: nat, so_far: bool) -> bool
    decreases n,
{
    if n == 0 {
        so_far
    } else {
        let before = set_video(attrs, (n - 1) as nat, so_far);
        match attrs[n - 1] {
            Some((k, v)) => if named(k, "contentType"@) {
                text::lossy_text(v) == "video"@
            } else if named(k, "mimeType"@) {
                before || chars::starts(text::lossy_text(v), "video/"@)
            } else {
                before
            },
            None => before,
        }
    }
}

/// Whether one of the first `n` attributes is a video MIME type.
pub open spec fn mime_video(attrs: AttrSeq, n: nat) -> bool
    decreases n,
{
    if n == 0 {
        false
    } else {
        mime_video(attrs, (n - 1) as nat) || match attrs[n - 1] {
            Some((k, v)) => named(k, "mimeType"@) && chars::starts(
                text::lossy_text(v),
                "video/"@,
            ),
            None => false,
        }
    }
}

/// Whether the attributes of a set say that it is video.
fn read_set_video(attrs: &Vec<Option<Attribute>>) -> (yes: bool)
    ensures
        yes == set_video(xml::attributes_view(attrs@), attrs@.len(), false),
{
    let ghost views = xml::attributes_view(attrs@);
    let mut yes: bool = false;
    let mut i: usize = 0;
    while i < attrs.len()
        invariant
            i <= attrs.len(),
            views == xml::attributes_view(attrs@),
            yes == set_video(views, i as nat, false),
        decreases attrs.len() - i,
    {
        assert(views[i as int] == xml::attribute_view(attrs@[i as int]));
        if let Some(a) = &attrs[i] {
            if is_named(a.0.as_slice(), "contentType") {
                let value: String = text::utf8_lossy(a.1.as_slice());
                yes = text::same_text(value.as_str(), "video");
            } else if is_named(a.0.as_slice(), "mimeType") {
                let value: String = text::utf8_lossy(a.1.as_slice());
                if chars::starts_with(chars::chars_of(value.as_str()).as_slice(), "video/") {
                    yes = true;
                }
            }
        }
        i = i + 1;
    }
    yes
}

/// Whether one of the attributes is a video MIME type.
fn read_mime_video(attrs: &Vec<Option<Attribute>>) -> (yes: bool)
    ensures
        yes == mime_video(xml::attributes_view(attrs@), attrs@.len()),
{
    let ghost views = xml::attributes_view(attrs@);
    let mut yes: bool = false;
    let mut i: usize = 0;
    while i < attrs.len()
        invariant
            i <= attrs.len(),
            views == xml::attributes_view(attrs@),
            yes == mime_video(views, i as nat),
        decreases attrs.len() - i,
    {
        assert(views[i as int] == xml::attribute_view(attrs@[i as int]));
        if let Some(a) = &attrs[i] {
            if is_named(a.0.as_slice(), "mimeType") {
                let value: String = text::utf8_lossy(a.1.as_slice());
                if chars::starts_with(chars::chars_of(value.as_str()).as_slice(), "video/") {
                    yes = true;
                }
            }
        }
        i = i + 1;
    }
    yes
}

impl MpdView {
    /// Nothing read yet.
    pub open spec fn fresh() -> MpdView {
        MpdView {
            live: false,
            total: None,
            scheme: None,
            init_template: None,
            media_template: None,
            timescale: 1,
            start_number: 0,
            timeline: Seq::empty(),
            uniform: None,
            base_override: None,
            video_template: false,
            capturing: false,
            latency: None,
            steering: None,
            breaks: Seq::empty(),
            in_events: false,
            event_scale: 90000,
            pending: None,
            in_set: false,
            set_is_video: false,
            in_representation: false,
            base_ahead: false,
            rep_base: None,
            rep_index: None,
            rep_scale: 0,
            rep_init: None,
            in_segment_base: false,
            found: None,
        }
    }

    /// After an `MPD` tag.
    pub open spec fn on_mpd(self, attrs: AttrSeq) -> MpdView {
        MpdView {
            live: match attr(attrs, "type"@) {
                Some(v) => v == "dynamic"@,
                None => self.live,
            },
            total: match attr(attrs, "mediaPresentationDuration"@) {
                Some(v) => duration_of(v),
                None => self.total,
            },
            ..self
        }
    }

    /// After a `Representation` tag: what was known of another one is dropped.
    pub open spec fn on_representation(self, attrs: AttrSeq) -> MpdView {
        MpdView {
            in_representation: true,
            rep_base: None,
            rep_index: None,
            rep_scale: 0,
            rep_init: None,
            set_is_video: self.set_is_video || mime_video(attrs, attrs.len()),
            ..self
        }
    }

    /// After a `SegmentBase` tag.
    pub open spec fn on_segment_base(self, attrs: AttrSeq, empty: bool) -> MpdView {
        MpdView {
            in_segment_base: !empty,
            rep_index: match attr(attrs, "indexRange"@) {
                Some(v) => byte_range(v),
                None => self.rep_index,
            },
            rep_scale: number_or(
                attr(attrs, "timescale"@),
                u64::MAX as nat,
                self.rep_scale as nat,
                0,
            ) as u64,
            ..self
        }
    }

    /// After an `Initialization` tag.
    pub open spec fn on_initialization(self, attrs: AttrSeq) -> MpdView {
        MpdView {
            rep_init: match attr(attrs, "range"@) {
                Some(v) => byte_range(v),
                None => self.rep_init,
            },
            ..self
        }
    }

    /// After a `SegmentTemplate` tag. The first template of a video set is kept for good;
    /// until then any other is taken in its place.
    pub open spec fn on_template(self, attrs: AttrSeq) -> MpdView {
        if self.video_template {
            MpdView { capturing: false, ..self }
        } else {
            let offset = hls_input::decimal_in(attr(attrs, "availabilityTimeOffset"@));
            MpdView {
                capturing: true,
                video_template: self.set_is_video,
                timeline: if self.set_is_video {
                    Seq::empty()
                } else {
                    self.timeline
                },
                uniform: match attr(attrs, "duration"@) {
                    Some(v) => match chars::number_of(v, u64::MAX as nat) {
                        Some(n) => Some(n as u64),
                        None => None,
                    },
                    None => if self.set_is_video {
                        None
                    } else {
                        self.uniform
                    },
                },
                init_template: match attr(attrs, "initialization"@) {
                    Some(v) => Some(v),
                    None => self.init_template,
                },
                media_template: match attr(attrs, "media"@) {
                    Some(v) => Some(v),
                    None => self.media_template,
                },
                timescale: number_or(
                    attr(attrs, "timescale"@),
                    u64::MAX as nat,
                    self.timescale as nat,
                    1,
                ) as u64,
                start_number: number_or(
                    attr(attrs, "startNumber"@),
                    u32::MAX as nat,
                    self.start_number as nat,
                    0,
                ) as u32,
                latency: match offset {
                    Some(d) => Some(
                        LowLatencyDashInfo {
                            availability_time_offset: d,
                            availability_time_complete: match attr(
                                attrs,
                                "availabilityTimeComplete"@,
                            ) {
                                Some(v) => v == "true"@,
                                None => true,
                            },
                        },
                    ),
                    None => self.latency,
                },
                ..self
            }
        }
    }

    /// After an `S` tag.
    pub open spec fn on_entry(self, attrs: AttrSeq) -> MpdView {
        let d = number_or(attr(attrs, "d"@), u64::MAX as nat, 0, 0);
        let r = number_or(attr(attrs, "r"@), u32::MAX as nat, 0, 0);
        if self.capturing && d > 0 {
            MpdView { timeline: self.timeline.push((d as u64, r as u32)), ..self }
        } else {
            self
        }
    }

    /// After a `ContentSteering` tag.
    pub open spec fn on_steering(self, attrs: AttrSeq) -> MpdView {
        match attr(attrs, "proxyServerURL"@) {
            None => self,
            Some(url) => MpdView {
                steering: Some(
                    SteeringView {
                        server_uri: url,
                        default_pathway_id: attr(attrs, "defaultServiceLocation"@),
                        query_before_start: match attr(attrs, "queryBeforeStart"@) {
                            Some(v) => Some(v == "true"@),
                            None => None,
                        },
                    },
                ),
                ..self
            },
        }
    }

    /// After a `ContentProtection` tag.
    pub open spec fn on_protection(self, attrs: AttrSeq) -> MpdView {
        if attr(attrs, "schemeIdUri"@) == Some("urn:mpeg:dash:mp4protection:2011"@) {
            match attr(attrs, "value"@) {
                Some(v) => if v == "cenc"@ {
                    MpdView { scheme: Some(EncryptionScheme::Cenc), ..self }
                } else if v == "cbcs"@ {
                    MpdView { scheme: Some(EncryptionScheme::Cbcs), ..self }
                } else {
                    self
                },
                None => self,
            }
        } else {
            self
        }
    }

    /// After an `EventStream` tag.
    pub open spec fn on_event_stream(self, attrs: AttrSeq) -> MpdView {
        if chars::starts(hls_input::or_empty(attr(attrs, "schemeIdUri"@)), "urn:scte:scte35:"@) {
            MpdView {
                in_events: true,
                event_scale: number_or(
                    attr(attrs, "timescale"@),
                    u64::MAX as nat,
                    90000,
                    90000,
                ) as u64,
                ..self
            }
        } else {
            self
        }
    }

    /// The ad break that an event announces.
    pub open spec fn break_of(self, e: PendingView) -> AdBreakView {
        AdBreakView {
            id: e.id,
            presentation_time: decimal::of_ticks(e.time as nat, self.event_scale as nat),
            duration: match e.duration {
                Some(d) => Some(decimal::of_ticks(d as nat, self.event_scale as nat)),
                None => None,
            },
            scte35_cmd: if e.text.len() == 0 {
                None
            } else {
                Some(e.text)
            },
            segment_number: 0,
        }
    }

    /// After an `Event` tag.
    pub open spec fn on_event(self, attrs: AttrSeq, empty: bool) -> MpdView {
        let e = PendingView {
            id: number_or(attr(attrs, "id"@), u32::MAX as nat, 0, 0) as u32,
            time: number_or(attr(attrs, "presentationTime"@), u64::MAX as nat, 0, 0) as u64,
            duration: match number_in(attr(attrs, "duration"@), u64::MAX as nat) {
                Some(n) => Some(n as u64),
                None => None,
            },
            text: Seq::empty(),
        };
        if empty {
            MpdView { breaks: self.breaks.push(self.break_of(e)), ..self }
        } else {
            MpdView { pending: Some(e), ..self }
        }
    }

    /// After the start of an element, or an element without content.
    pub open spec fn on_start(self, name: Seq<u8>, attrs: AttrSeq, empty: bool) -> MpdView {
        if named(name, "MPD"@) {
            self.on_mpd(attrs)
        } else if named(name, "AdaptationSet"@) {
            MpdView {
                in_set: true,
                set_is_video: set_video(attrs, attrs.len(), false),
                ..self
            }
        } else if named(name, "Representation"@) && self.in_set {
            self.on_representation(attrs)
        } else if named(name, "BaseURL"@) {
            MpdView { base_ahead: true, ..self }
        } else if named(name, "SegmentBase"@) {
            self.on_segment_base(attrs, empty)
        } else if named(name, "Initialization"@) && self.in_segment_base {
            self.on_initialization(attrs)
        } else if named(name, "SegmentTemplate"@) {
            self.on_template(attrs)
        } else if named(name, "S"@) {
            self.on_entry(attrs)
        } else if named(name, "ContentSteering"@) {
            self.on_steering(attrs)
        } else if named(name, "ContentProtection"@) {
            self.on_protection(attrs)
        } else if named(name, "EventStream"@) {
            self.on_event_stream(attrs)
        } else if named(name, "Event"@) && self.in_events {
            self.on_event(attrs, empty)
        } else {
            self
        }
    }

    /// After text, white space at its ends removed.
    pub open spec fn on_text(self, t: Seq<char>) -> MpdView {
        let with_event = match self.pending {
            Some(e) => MpdView {
                pending: Some(PendingView { text: e.text + t, ..e }),
                ..self
            },
            None => self,
        };
        if !self.base_ahead || t.len() == 0 {
            with_event
        } else if self.in_representation {
            MpdView { rep_base: Some(t), base_ahead: false, ..with_event }
        } else if self.base_override is None && (chars::starts(t, "http://"@) || chars::starts(
            t,
            "https://"@,
        )) {
            MpdView { base_override: Some(t), base_ahead: false, ..with_event }
        } else {
            MpdView { base_ahead: false, ..with_event }
        }
    }

    /// Whether the representation that ends is the one to keep: the first one, or the first
    /// video one after one that is not.
    pub open spec fn keeps_representation(self) -> bool {
        self.in_representation && self.rep_index is Some && self.rep_init is Some
            && self.rep_base is Some && match self.found {
            None => true,
            Some(r) => self.set_is_video && !r.is_video,
        }
    }

    /// After the end of a `Representation`.
    pub open spec fn on_representation_end(self) -> MpdView {
        MpdView {
            found: if self.keeps_representation() {
                Some(
                    RepresentationView {
                        base: self.rep_base->0,
                        init_range: self.rep_init->0,
                        index_range: self.rep_index->0,
                        timescale: self.rep_scale,
                        is_video: self.set_is_video,
                    },
                )
            } else {
                self.found
            },
            in_representation: false,
            rep_base: None,
            rep_index: None,
            rep_scale: 0,
            rep_init: None,
            ..self
        }
    }

    /// After the end of an element.
    pub open spec fn on_end(self, name: Seq<u8>) -> MpdView {
        if named(name, "AdaptationSet"@) {
            MpdView { in_set: false, set_is_video: false, capturing: false, ..self }
        } else if named(name, "Representation"@) {
            self.on_representation_end()
        } else if named(name, "SegmentBase"@) {
            MpdView { in_segment_base: false, ..self }
        } else if named(name, "BaseURL"@) {
            MpdView { base_ahead: false, ..self }
        } else if named(name, "EventStream"@) {
            MpdView { in_events: false, ..self }
        } else if named(name, "Event"@) && self.in_events {
            match self.pending {
                Some(e) => MpdView {
                    breaks: self.breaks.push(self.break_of(e)),
                    pending: None,
                    ..self
                },
                None => self,
            }
        } else {
            self
        }
    }

    /// After one more event.
    pub open spec fn step(self, e: EventView) -> MpdView {
        match e {
            EventView::Tag(name, attrs, empty) => self.on_start(name, attrs, empty),
            EventView::Close(name) => self.on_end(name),
            EventView::Words(t) => self.on_text(chars::trimmed(hls_input::or_empty(t))),
            EventView::Rest => self,
            EventView::Finish => self,
        }
    }

    /// After the events from `i` on, or the error that ends them.
    pub open spec fn steps(self, events: Seq<Result<EventView, Seq<char>>>, i: int) -> Result<
        MpdView,
        ErrorView,
    >
        decreases events.len() - i,
    {
        if i < 0 || i >= events.len() {
            Ok(self)
        } else {
            match events[i] {
                Err(m) => Err(ErrorView::Manifest("MPD XML parse error: "@ + m)),
                Ok(e) => self.step(e).steps(events, i + 1),
            }
        }
    }
}

/// Temporary state for collecting a DASH `<Event>` element's attributes and text content.
struct PendingDashEvent {
    id: u32,
    presentation_time: u64,
    duration: Option<u64>,
    text_content: String,
}

impl View for PendingDashEvent {
    type V = PendingView;

    closed spec fn view(&self) -> PendingView {
        PendingView {
            id: self.id,
            time: self.presentation_time,
            duration: self.duration,
            text: self.text_content@,
        }
    }
}

/// Per-Representation SegmentBase data collected during parsing.
struct SegmentBaseRepresentation {
    /// BaseURL text content (may be relative to manifest URL).
    base_url: String,
    /// Initialization byte range (start, end inclusive).
    init_range: (u64, u64),
    /// Sidx (Segment Index) byte range (start, end inclusive).
    index_range: (u64, u64),
    /// Timescale from `<SegmentBase>` for duration conversion.
    timescale: u64,
    /// Whether this representation is in a video AdaptationSet.
    is_video: bool,
}

impl View for SegmentBaseRepresentation {
    type V = RepresentationView;

    closed spec fn view(&self) -> RepresentationView {
        RepresentationView {
            base: self.base_url@,
            init_range: self.init_range,
            index_range: self.index_range,
            timescale: self.timescale,
            is_video: self.is_video,
        }
    }
}

/// What was read of an MPD so far.
struct Mpd {
    live: bool,
    total: Option<Decimal>,
    scheme: Option<EncryptionScheme>,
    init_template: Option<String>,
    media_template: Option<String>,
    timescale: u64,
    start_number: u32,
    timeline: Vec<(u64, u32)>,
    uniform: Option<u64>,
    base_override: Option<String>,
    video_template: bool,
    capturing: bool,
    latency: Option<LowLatencyDashInfo>,
    steering: Option<ContentSteeringConfig>,
    breaks: Vec<AdBreakInfo>,
    in_events: bool,
    event_scale: u64,
    pending: Option<PendingDashEvent>,
    in_set: bool,
    set_is_video: bool,
    in_representation: bool,
    base_ahead: bool,
    rep_base: Option<String>,
    rep_index: Option<(u64, u64)>,
    rep_scale: u64,
    rep_init: Option<(u64, u64)>,
    in_segment_base: bool,
    found: Option<SegmentBaseRepresentation>,
}

impl View for Mpd {
    type V = MpdView;

    closed spec fn view(&self) -> MpdView {
        MpdView {
            live: self.live,
            total: self.total,
            scheme: self.scheme,
            init_template: types::opt_text(self.init_template),
            media_template: types::opt_text(self.media_template),
            timescale: self.timescale,
            start_number: self.start_number,
            timeline: self.timeline@,
            uniform: self.uniform,
            base_override: types::opt_text(self.base_override),
            video_template: self.video_template,
            capturing: self.capturing,
            latency: self.latency,
            steering: types::opt_steering(self.steering),
            breaks: types::breaks_view(self.breaks@),
            in_events: self.in_events,
            event_scale: self.event_scale,
            pending: match self.pending {
                Some(e) => Some(e@),
                None => None,
            },
            in_set: self.in_set,
            set_is_video: self.set_is_video,
            in_representation: self.in_representation,
            base_ahead: self.base_ahead,
            rep_base: types::opt_text(self.rep_base),
            rep_index: self.rep_index,
            rep_scale: self.rep_scale,
            rep_init: self.rep_init,
            in_segment_base: self.in_segment_base,
            found: match self.found {
                Some(r) => Some(r@),
                None => None,
            },
        }
    }
}

/// Whether a value is a given text.
fn is_text(value: Option<String>, t: &str) -> (yes: bool)
    ensures
        yes == (types::opt_text(value) == Some(t@)),
{
    match value {
        Some(v) => text::same_text(v.as_str(), t),
        None => false,
    }
}

impl Mpd {
    /// Nothing read yet.
    fn new() -> (m: Mpd)
        ensures
            m@ == MpdView::fresh(),
    {
        let m: Mpd = Mpd {
            live: false,
            total: None,
            scheme: None,
            init_template: None,
            media_template: None,
            timescale: 1,
            start_number: 0,
            timeline: Vec::new(),
            uniform: None,
            base_override: None,
            video_template: false,
            capturing: false,
            latency: None,
            steering: None,
            breaks: Vec::new(),
            in_events: false,
            event_scale: 90000,
            pending: None,
            in_set: false,
            set_is_video: false,
            in_representation: false,
            base_ahead: false,
            rep_base: None,
            rep_index: None,
            rep_scale: 0,
            rep_init: None,
            in_segment_base: false,
            found: None,
        };
        assert(m@.timeline =~= Seq::empty());
        assert(m@.breaks =~= Seq::empty());
        m
    }

    fn read_mpd(&mut self, attrs: &Vec<Option<Attribute>>)
        ensures
            final(self)@ == old(self)@.on_mpd(xml::attributes_view(attrs@)),
    {
        if let Some(v) = attr_text(attrs, "type") {
            self.live = text::same_text(v.as_str(), "dynamic");
        }
        if let Some(v) = attr_text(attrs, "mediaPresentationDuration") {
            self.total = parse_iso8601_duration(v.as_str());
        }
    }

    fn read_representation(&mut self, attrs: &Vec<Option<Attribute>>)
        ensures
            final(self)@ == old(self)@.on_representation(xml::attributes_view(attrs@)),
    {
        self.in_representation = true;
        self.rep_base = None;
        self.rep_index = None;
        self.rep_scale = 0;
        self.rep_init = None;
        assert(xml::attributes_view(attrs@).len() == attrs@.len());
        if !self.set_is_video {
            self.set_is_video = read_mime_video(attrs);
        }
    }

    fn read_segment_base(&mut self, attrs: &Vec<Option<Attribute>>, empty: bool)
        ensures
            final(self)@ == old(self)@.on_segment_base(xml::attributes_view(attrs@), empty),
    {
        self.in_segment_base = !empty;
        if let Some(v) = attr_text(attrs, "indexRange") {
            self.rep_index = parse_byte_range(v.as_str());
        }
        self.rep_scale = parse_number_or(
            attr_text(attrs, "timescale"),
            u64::MAX,
            self.rep_scale,
            0,
        );
    }

    fn read_template(&mut self, attrs: &Vec<Option<Attribute>>)
        ensures
            final(self)@ == old(self)@.on_template(xml::attributes_view(attrs@)),
    {
        if self.video_template {
            self.capturing = false;
            return ;
        }
        self.capturing = true;
        if self.set_is_video {
            self.timeline = Vec::new();
            assert(self.timeline@ =~= Seq::empty());
            self.uniform = None;
            self.video_template = true;
        }
        if let Some(v) = attr_text(attrs, "initialization") {
            self.init_template = Some(v);
        }
        if let Some(v) = attr_text(attrs, "media") {
            self.media_template = Some(v);
        }
        self.timescale = parse_number_or(
            attr_text(attrs, "timescale"),
            u64::MAX,
            self.timescale,
            1,
        );
        self.start_number = parse_number_or(
            attr_text(attrs, "startNumber"),
            u32::MAX as u64,
            self.start_number as u64,
            0,
        ) as u32;
        if let Some(v) = attr_text(attrs, "duration") {
            self.uniform = chars::parse_number(chars::chars_of(v.as_str()).as_slice(), u64::MAX);
        }
        if let Some(v) = attr_text(attrs, "availabilityTimeOffset") {
            if let Some(offset) = Decimal::parse(chars::chars_of(v.as_str()).as_slice()) {
                let complete: bool = match attr_text(attrs, "availabilityTimeComplete") {
                    Some(c) => text::same_text(c.as_str(), "true"),
                    None => true,
                };
                self.latency = Some(
                    LowLatencyDashInfo {
                        availability_time_offset: offset,
                        availability_time_complete: complete,
                    },
                );
            }
        }
    }

    fn read_entry(&mut self, attrs: &Vec<Option<Attribute>>)
        ensures
            final(self)@ == old(self)@.on_entry(xml::attributes_view(attrs@)),
    {
        if !self.capturing {
            return ;
        }
        let d: u64 = parse_number_or(attr_text(attrs, "d"), u64::MAX, 0, 0);
        let r: u64 = parse_number_or(attr_text(attrs, "r"), u32::MAX as u64, 0, 0);
        if d > 0 {
            self.timeline.push((d, r as u32));
        }
    }

    fn read_steering(&mut self, attrs: &Vec<Option<Attribute>>)
        ensures
            final(self)@ == old(self)@.on_steering(xml::attributes_view(attrs@)),
    {
        if let Some(server_uri) = attr_text(attrs, "proxyServerURL") {
            let query_before_start: Option<bool> = match attr_text(attrs, "queryBeforeStart") {
                Some(v) => Some(text::same_text(v.as_str(), "true")),
                None => None,
            };
            self.steering = Some(
                ContentSteeringConfig {
                    server_uri,
                    default_pathway_id: attr_text(attrs, "defaultServiceLocation"),
                    query_before_start,
                },
            );
        }
    }

    fn read_protection(&mut self, attrs: &Vec<Option<Attribute>>)
        ensures
            final(self)@ == old(self)@.on_protection(xml::attributes_view(attrs@)),
    {
        if !is_text(attr_text(attrs, "schemeIdUri"), "urn:mpeg:dash:mp4protection:2011") {
            return ;
        }
        if let Some(v) = attr_text(attrs, "value") {
            if text::same_text(v.as_str(), "cenc") {
                self.scheme = Some(EncryptionScheme::Cenc);
            } else if text::same_text(v.as_str(), "cbcs") {
                self.scheme = Some(EncryptionScheme::Cbcs);
            }
        }
    }

    fn read_event_stream(&mut self, attrs: &Vec<Option<Attribute>>)
        ensures
            final(self)@ == old(self)@.on_event_stream(xml::attributes_view(attrs@)),
    {
        proof {
            reveal_strlit("urn:scte:scte35:");
        }
        if let Some(v) = attr_text(attrs, "schemeIdUri") {
            if chars::starts_with(chars::chars_of(v.as_str()).as_slice(), "urn:scte:scte35:") {
                self.in_events = true;
                self.event_scale = parse_number_or(
                    attr_text(attrs, "timescale"),
                    u64::MAX,
                    90000,
                    90000,
                );
            }
        }
    }

    /// Adds the ad break that an event announces.
    fn add_break(&mut self, e: PendingDashEvent)
        ensures
            final(self)@ == (MpdView {
                breaks: old(self)@.breaks.push(old(self)@.break_of(e@)),
                ..old(self)@
            }),
    {
        let presentation_time: Decimal = Decimal::from_ticks(
            e.presentation_time,
            self.event_scale,
        );
        let duration: Option<Decimal> = match e.duration {
            Some(d) => Some(Decimal::from_ticks(d, self.event_scale)),
            None => None,
        };
        let chars: Vec<char> = chars::chars_of(e.text_content.as_str());
        let scte35_cmd: Option<String> = if chars.len() == 0 {
            None
        } else {
            Some(e.text_content)
        };
        let b: AdBreakInfo = AdBreakInfo {
            id: e.id,
            presentation_time,
            duration,
            scte35_cmd,
            segment_number: 0,
        };
        let ghost view = b@;
        let ghost before = self.breaks@;
        self.breaks.push(b);
        assert(types::breaks_view(self.breaks@) =~= types::breaks_view(before).push(view));
    }

    fn read_event(&mut self, attrs: &Vec<Option<Attribute>>, empty: bool)
        ensures
            final(self)@ == old(self)@.on_event(xml::attributes_view(attrs@), empty),
    {
        let id: u64 = parse_number_or(attr_text(attrs, "id"), u32::MAX as u64, 0, 0);
        let e: PendingDashEvent = PendingDashEvent {
            id: id as u32,
            presentation_time: parse_number_or(
                attr_text(attrs, "presentationTime"),
                u64::MAX,
                0,
                0,
            ),
            duration: parse_number(attr_text(attrs, "duration"), u64::MAX),
            text_content: String::new(),
        };
        assert(e.text_content@ =~= Seq::empty());
        if empty {
            self.add_break(e);
        } else {
            self.pending = Some(e);
        }
    }

    /// Reads the start of an element, or an element without content.
    fn read_start(&mut self, name: &[u8], attrs: &Vec<Option<Attribute>>, empty: bool)
        ensures
            final(self)@ == old(self)@.on_start(name@, xml::attributes_view(attrs@), empty),
    {
        assert(xml::attributes_view(attrs@).len() == attrs@.len());
        if is_named(name, "MPD") {
            self.read_mpd(attrs);
        } else if is_named(name, "AdaptationSet") {
            self.in_set = true;
            self.set_is_video = read_set_video(attrs);
        } else if is_named(name, "Representation") && self.in_set {
            self.read_representation(attrs);
        } else if is_named(name, "BaseURL") {
            self.base_ahead = true;
        } else if is_named(name, "SegmentBase") {
            self.read_segment_base(attrs, empty);
        } else if is_named(name, "Initialization") && self.in_segment_base {
            if let Some(v) = attr_text(attrs, "range") {
                self.rep_init = parse_byte_range(v.as_str());
            }
        } else if is_named(name, "SegmentTemplate") {
            self.read_template(attrs);
        } else if is_named(name, "S") {
            self.read_entry(attrs);
        } else if is_named(name, "ContentSteering") {
            self.read_steering(attrs);
        } else if is_named(name, "ContentProtection") {
            self.read_protection(attrs);
        } else if is_named(name, "EventStream") {
            self.read_event_stream(attrs);
        } else if is_named(name, "Event") && self.in_events {
            self.read_event(attrs, empty);
        }
    }

    /// Reads text, white space at its ends removed.
    fn read_text(&mut self, t: &str)
        ensures
            final(self)@ == old(self)@.on_text(t@),
    {
        let chars: Vec<char> = chars::chars_of(t);
        let mut pending: Option<PendingDashEvent> = None;
        std::mem::swap(&mut pending, &mut self.pending);
        if let Some(e) = pending {
            let mut content: String = e.text_content;
            content.push_str(t);
            self.pending = Some(
                PendingDashEvent {
                    id: e.id,
                    presentation_time: e.presentation_time,
                    duration: e.duration,
                    text_content: content,
                },
            );
        }
        if !self.base_ahead || chars.len() == 0 {
            return ;
        }
        if self.in_representation {
            self.rep_base = Some(t.to_owned());
        } else if self.base_override.is_none() && (chars::starts_with(chars.as_slice(), "http://")
            || chars::starts_with(chars.as_slice(), "https://")) {
            self.base_override = Some(t.to_owned());
        }
        self.base_ahead = false;
    }

    fn read_representation_end(&mut self)
        ensures
            final(self)@ == old(self)@.on_representation_end(),
    {
        let better: bool = match &self.found {
            None => true,
            Some(r) => self.set_is_video && !r.is_video,
        };
        let mut base: Option<String> = None;
        std::mem::swap(&mut base, &mut self.rep_base);
        if self.in_representation && better {
            match (base, self.rep_init, self.rep_index) {
                (Some(base_url), Some(init_range), Some(index_range)) => {
                    self.found = Some(
                        SegmentBaseRepresentation {
                            base_url,
                            init_range,
                            index_range,
                            timescale: self.rep_scale,
                            is_video: self.set_is_video,
                        },
                    );
                },
                _ => {},
            }
        }
        self.in_representation = false;
        self.rep_index = None;
        self.rep_scale = 0;
        self.rep_init = None;
    }

    /// Reads the end of an element.
    fn read_end(&mut self, name: &[u8])
        ensures
            final(self)@ == old(self)@.on_end(name@),
    {
        if is_named(name, "AdaptationSet") {
            self.in_set = false;
            self.set_is_video = false;
            self.capturing = false;
        } else if is_named(name, "Representation") {
            self.read_representation_end();
        } else if is_named(name, "SegmentBase") {
            self.in_segment_base = false;
        } else if is_named(name, "BaseURL") {
            self.base_ahead = false;
        } else if is_named(name, "EventStream") {
            self.in_events = false;
        } else if is_named(name, "Event") && self.in_events {
            let mut pending: Option<PendingDashEvent> = None;
            std::mem::swap(&mut pending, &mut self.pending);
            if let Some(e) = pending {
                self.add_break(e);
            }
        }
    }

    /// Reads one more event.
    fn read(&mut self, e: &XmlEvent)
        ensures
            final(self)@ == old(self)@.step(e@),
    {
        match e {
            XmlEvent::Tag(name, attrs, empty) => {
                self.read_start(name.as_slice(), attrs, *empty);
            },
            XmlEvent::Close(name) => {
                self.read_end(name.as_slice());
            },
            XmlEvent::Words(t) => {
                let chars: Vec<char> = match t {
                    Some(s) => chars::chars_of(s.as_str()),
                    None => Vec::new(),
                };
                assert(chars@ =~= hls_input::or_empty(types::opt_text(*t)));
                self.read_text(chars::string_of(chars::trim(chars.as_slice())).as_str());
            },
            XmlEvent::Rest => {},
            XmlEvent::Finish => {},
        }
    }
}

/// The URL of a media segment: its number in place of `$Number$`.
pub open spec fn media_url(base: UrlView, pattern: Seq<char>, number: u32) -> Result<
    Seq<char>,
    ErrorView,
> {
    hls_input::resolved(base, chars::replaced(pattern, "$Number$"@, text::dec(number as nat)))
}

/// The number `i` segments after `start`, counted in 32 bits.
pub open spec fn number_after(start: u32, i: nat) -> u32 {
    ((start + i) % 0x1_0000_0000) as u32
}

/// The number `i` segments after `start`, counted in 32 bits.
fn add_number(start: u32, i: u32) -> (n: u32)
    ensures
        n == number_after(start, i as nat),
{
    ((start as u64 + i as u64) % 0x1_0000_0000) as u32
}

/// URLs and durations of segments.
pub type SegmentList = (Seq<Seq<char>>, Seq<Decimal>);

/// The segments from repeat `k` of timeline entry `j` on, after those in `got`.
pub open spec fn timeline_segments(
    base: UrlView,
    pattern: Seq<char>,
    timeline: Seq<(u64, u32)>,
    scale: nat,
    j: int,
    k: int,
    number: u32,
    got: SegmentList,
) -> Result<SegmentList, ErrorView>
    decreases
            timeline.len() - j,
            (if 0 <= j < timeline.len() && k <= timeline[j].1 {
                timeline[j].1 + 1 - k
            } else {
                0
            }),
{
    if j < 0 || j >= timeline.len() {
        Ok(got)
    } else if k > timeline[j].1 {
        timeline_segments(base, pattern, timeline, scale, j + 1, 0, number, got)
    } else {
        match media_url(base, pattern, number) {
            Err(e) => Err(e),
            Ok(u) => timeline_segments(
                base,
                pattern,
                timeline,
                scale,
                j,
                k + 1,
                number_after(number, 1),
                (got.0.push(u), got.1.push(decimal::of_ticks(timeline[j].0 as nat, scale))),
            ),
        }
    }
}

/// How many segments of `d` ticks cover `total`, as far as 32 bits count. A scale of zero
/// makes a segment endless; a duration of zero makes endlessly many.
pub open spec fn uniform_count(total: Decimal, d: nat, scale: nat) -> nat {
    if scale == 0 || total.nanos <= 0 {
        0
    } else if d == 0 {
        u32::MAX as nat
    } else {
        let exact = (total.nanos * scale + d * 1_000_000_000 - 1) / ((d * 1_000_000_000) as int);
        if exact > u32::MAX {
            u32::MAX as nat
        } else {
            exact as nat
        }
    }
}

/// The duration of segment `i` of `d` ticks: the last one ends with the presentation.
pub open spec fn uniform_duration(total: Decimal, d: nat, scale: nat, i: nat) -> Decimal {
    let left = total.sum(Decimal { nanos: (-((i * d * 1_000_000_000) / scale)) as i128 });
    let full = decimal::of_ticks(d, scale);
    if left.nanos < full.nanos {
        left
    } else {
        full
    }
}

/// The segments of equal duration from `i` on, after those in `got`.
pub open spec fn uniform_segments(
    base: UrlView,
    pattern: Seq<char>,
    total: Decimal,
    d: nat,
    scale: nat,
    start: u32,
    i: nat,
    got: SegmentList,
) -> Result<SegmentList, ErrorView>
    decreases uniform_count(total, d, scale) - i,
{
    if i >= uniform_count(total, d, scale) {
        Ok(got)
    } else {
        match media_url(base, pattern, number_after(start, i)) {
            Err(e) => Err(e),
            Ok(u) => uniform_segments(
                base,
                pattern,
                total,
                d,
                scale,
                start,
                i + 1,
                (got.0.push(u), got.1.push(uniform_duration(total, d, scale, i))),
            ),
        }
    }
}

impl MpdView {
    /// The base that references are resolved against.
    pub open spec fn base(self, base: UrlView) -> UrlView {
        match self.base_override {
            Some(u) => match url::url_of(u) {
                Ok(v) => v,
                Err(_) => base,
            },
            None => base,
        }
    }

    /// The media segments that the template makes.
    pub open spec fn segments(self, base: UrlView, pattern: Seq<char>) -> Result<
        SegmentList,
        ErrorView,
    > {
        if self.timeline.len() > 0 {
            timeline_segments(
                base,
                pattern,
                self.timeline,
                self.timescale as nat,
                0,
                0,
                self.start_number,
                (Seq::empty(), Seq::empty()),
            )
        } else {
            match (self.uniform, self.total) {
                (Some(d), Some(total)) => uniform_segments(
                    base,
                    pattern,
                    total,
                    d as nat,
                    self.timescale as nat,
                    self.start_number,
                    0,
                    (Seq::empty(), Seq::empty()),
                ),
                _ => Ok((Seq::empty(), Seq::empty())),
            }
        }
    }

    /// The manifest with the given segments and single file.
    pub open spec fn source(
        self,
        init: Seq<char>,
        segments: SegmentList,
        file: Option<SegmentBaseView>,
    ) -> SourceView {
        SourceView {
            init_segment_url: init,
            segment_urls: segments.0,
            segment_durations: segments.1,
            is_live: self.live,
            source_scheme: self.scheme,
            ad_breaks: self.breaks,
            parts: Seq::empty(),
            part_target_duration: None,
            server_control: None,
            ll_dash_info: self.latency,
            is_ts_source: false,
            aes128_key_url: None,
            aes128_iv: None,
            content_steering: self.steering,
            init_byte_range: match file {
                Some(f) => Some(f.init_range),
                None => None,
            },
            segment_byte_ranges: Seq::empty(),
            segment_base: file,
            source_variants: Seq::empty(),
        }
    }

    /// The manifest of an MPD with a segment template.
    pub open spec fn template_source(self, base: UrlView, pattern: Seq<char>) -> Result<
        SourceView,
        ErrorView,
    > {
        match self.segments(base, pattern) {
            Err(e) => Err(e),
            Ok(segments) => match self.init_template {
                None => hls_input::manifest_err("DASH MPD missing SegmentTemplate@initialization"),
                Some(t) => match hls_input::resolved(base, t) {
                    Err(e) => Err(e),
                    Ok(init) => Ok(self.source(init, segments, None)),
                },
            },
        }
    }

    /// The manifest that was read: from a segment template, else from a single file.
    pub open spec fn manifest(self, manifest_base: UrlView) -> Result<SourceView, ErrorView> {
        let base = self.base(manifest_base);
        match self.media_template {
            Some(pattern) => self.template_source(base, pattern),
            None => match self.found {
                Some(r) => match hls_input::resolved(base, r.base) {
                    Err(e) => Err(e),
                    Ok(file_url) => Ok(
                        self.source(
                            file_url,
                            (Seq::empty(), Seq::empty()),
                            Some(
                                SegmentBaseView {
                                    file_url,
                                    init_range: r.init_range,
                                    index_range: r.index_range,
                                    timescale: r.timescale,
                                },
                            ),
                        ),
                    ),
                },
                None => hls_input::manifest_err(
                    "DASH MPD missing both SegmentTemplate and SegmentBase \u{2014} unsupported manifest format",
                ),
            },
        }
    }
}

/// The manifest that the events of an MPD describe.
pub open spec fn dash_source(
    events: Seq<Result<EventView, Seq<char>>>,
    manifest_url: Seq<char>,
) -> Result<SourceView, ErrorView> {
    match hls_input::base_of(manifest_url) {
        Err(e) => Err(e),
        Ok(base) => match MpdView::fresh().steps(events, 0) {
            Err(e) => Err(e),
            Ok(m) => m.manifest(base),
        },
    }
}

/// The URLs and durations of media segments.
struct Segments {
    urls: Vec<String>,
    durations: Vec<Decimal>,
}

impl View for Segments {
    type V = SegmentList;

    closed spec fn view(&self) -> SegmentList {
        (types::texts(self.urls@), self.durations@)
    }
}

impl Segments {
    /// No segments.
    fn new() -> (s: Segments)
        ensures
            s@ == (Seq::<Seq<char>>::empty(), Seq::<Decimal>::empty()),
    {
        let s: Segments = Segments { urls: Vec::new(), durations: Vec::new() };
        assert(s@.0 =~= Seq::empty());
        assert(s@.1 =~= Seq::empty());
        s
    }

    /// Adds a segment.
    fn push(&mut self, url: String, duration: Decimal)
        ensures
            final(self)@ == (old(self)@.0.push(url@), old(self)@.1.push(duration)),
    {
        self.urls.push(url);
        self.durations.push(duration);
        assert(final(self)@.0 =~= old(self)@.0.push(url@));
    }
}

/// The URL of a media segment.
fn make_media_url(base: &Url, pattern: &[char], number: u32) -> (r: Result<String, EdgepackError>)
    ensures
        hls_input::text_outcome(r) == media_url(base@, pattern@, number),
{
    let mut digits: String = String::new();
    text::put_dec(&mut digits, number as u64);
    assert(digits@ =~= text::dec(number as nat));
    proof {
        reveal_strlit("$Number$");
    }
    let reference: String = chars::replace(pattern, "$Number$", digits.as_str());
    hls_input::resolve_url(base, reference.as_str())
}

/// The segments of a timeline.
#[verifier::loop_isolation(false)]
fn make_timeline(base: &Url, pattern: &[char], timeline: &Vec<(u64, u32)>, scale: u64, start: u32) -> (r:
    Result<Segments, EdgepackError>)
    ensures
        cmaf::outcome_view(r) == timeline_segments(
            base@,
            pattern@,
            timeline@,
            scale as nat,
            0,
            0,
            start,
            (Seq::empty(), Seq::empty()),
        ),
{
    let ghost whole = timeline_segments(
        base@,
        pattern@,
        timeline@,
        scale as nat,
        0,
        0,
        start,
        (Seq::empty(), Seq::empty()),
    );
    let mut out: Segments = Segments::new();
    let mut number: u32 = start;
    let mut j: usize = 0;
    while j < timeline.len()
        invariant
            j <= timeline.len(),
            whole == timeline_segments(
                base@,
                pattern@,
                timeline@,
                scale as nat,
                j as int,
                0,
                number,
                out@,
            ),
        decreases timeline.len() - j,
    {
        let d: u64 = timeline[j].0;
        let repeats: u64 = timeline[j].1 as u64;
        let mut k: u64 = 0;
        while k <= repeats
            invariant
                j < timeline.len(),
                d == timeline@[j as int].0,
                repeats == timeline@[j as int].1,
                k <= repeats + 1,
                whole == timeline_segments(
                    base@,
                    pattern@,
                    timeline@,
                    scale as nat,
                    j as int,
                    k as int,
                    number,
                    out@,
                ),
            decreases repeats + 1 - k,
        {
            let url: String = match make_media_url(base, pattern, number) {
                Ok(url) => url,
                Err(e) => return Err(e),
            };
            out.push(url, Decimal::from_ticks(d, scale));
            number = add_number(number, 1);
            k = k + 1;
        }
        j = j + 1;
    }
    Ok(out)
}

/// How many segments of `d` ticks cover `total`.
fn count_uniform(total: Decimal, d: u64, scale: u64) -> (n: u32)
    ensures
        n == uniform_count(total, d as nat, scale as nat),
{
    if scale == 0 || total.nanos <= 0 {
        return 0;
    }
    if d == 0 {
        return u32::MAX;
    }
    let nanos: u128 = total.nanos as u128;
    let unit: u128 = d as u128 * 1_000_000_000;
    let most: u128 = 0x4000_0000_0000_0000_0000_0000_0000_0000;
    if nanos > most / scale as u128 {
        assert(nanos * scale > most) by (nonlinear_arith)
            requires
                nanos >= most as int / scale as int + 1,
                scale >= 1,
        ;
        assert((nanos * scale + unit - 1) / (unit as int) > u32::MAX) by (nonlinear_arith)
            requires
                nanos * scale > most,
                most == 0x4000_0000_0000_0000_0000_0000_0000_0000,
                1 <= unit <= 0xFFFF_FFFF_FFFF_FFFF * 1_000_000_000,
        ;
        return u32::MAX;
    }
    assert(nanos * scale <= most) by (nonlinear_arith)
        requires
            nanos <= most as int / scale as int,
            scale >= 1,
    ;
    let exact: u128 = (nanos * scale as u128 + unit - 1) / unit;
    if exact > u32::MAX as u128 {
        u32::MAX
    } else {
        exact as u32
    }
}

/// The duration of segment `i` of `d` ticks.
fn make_uniform_duration(total: Decimal, d: u64, scale: u64, i: u32) -> (t: Decimal)
    requires
        scale > 0,
    ensures
        t == uniform_duration(total, d as nat, scale as nat, i as nat),
{
    assert(i * d <= 0xFFFF_FFFF * 0xFFFF_FFFF_FFFF_FFFF) by (nonlinear_arith)
        requires
            i <= 0xFFFF_FFFF,
            d <= 0xFFFF_FFFF_FFFF_FFFF,
    ;
    let ticks: u128 = i as u128 * d as u128;
    let start: u128 = ticks * 1_000_000_000 / scale as u128;
    assert(start == (i as nat * d as nat * 1_000_000_000) / scale as nat);
    assert(start <= ticks * 1_000_000_000) by (nonlinear_arith)
        requires
            start == (ticks * 1_000_000_000) / (scale as int),
            scale > 0,
    ;
    let full: Decimal = Decimal::from_ticks(d, scale);
    let left: Decimal = total.plus(Decimal { nanos: -(start as i128) });
    if left.nanos < full.nanos {
        left
    } else {
        full
    }
}

/// The segments of equal duration.
#[verifier::loop_isolation(false)]
fn make_uniform(base: &Url, pattern: &[char], total: Decimal, d: u64, scale: u64, start: u32) -> (r:
    Result<Segments, EdgepackError>)
    ensures
        cmaf::outcome_view(r) == uniform_segments(
            base@,
            pattern@,
            total,
            d as nat,
            scale as nat,
            start,
            0,
            (Seq::empty(), Seq::empty()),
        ),
{
    let ghost whole = uniform_segments(
        base@,
        pattern@,
        total,
        d as nat,
        scale as nat,
        start,
        0,
        (Seq::empty(), Seq::empty()),
    );
    let count: u32 = count_uniform(total, d, scale);
    let mut out: Segments = Segments::new();
    let mut i: u32 = 0;
    while i < count
        invariant
            i <= count,
            whole == uniform_segments(
                base@,
                pattern@,
                total,
                d as nat,
                scale as nat,
                start,
                i as nat,
                out@,
            ),
        decreases count - i,
    {
        let url: String = match make_media_url(base, pattern, add_number(start, i)) {
            Ok(url) => url,
            Err(e) => return Err(e),
        };
        out.push(url, make_uniform_duration(total, d, scale, i));
        i = i + 1;
    }
    Ok(out)
}

impl Mpd {
    /// The media segments that the template makes.
    fn make_segments(&self, base: &Url, pattern: &str) -> (r: Result<Segments, EdgepackError>)
        ensures
            cmaf::outcome_view(r) == self@.segments(base@, pattern@),
    {
        let chars: Vec<char> = chars::chars_of(pattern);
        if self.timeline.len() > 0 {
            return make_timeline(
                base,
                chars.as_slice(),
                &self.timeline,
                self.timescale,
                self.start_number,
            );
        }
        match (self.uniform, self.total) {
            (Some(d), Some(total)) => make_uniform(
                base,
                chars.as_slice(),
                total,
                d,
                self.timescale,
                self.start_number,
            ),
            _ => Ok(Segments::new()),
        }
    }

    /// The manifest with the given segments and single file.
    fn into_source(
        self,
        init_segment_url: String,
        segments: Segments,
        segment_base: Option<SegmentBaseSource>,
    ) -> (m: SourceManifest)
        ensures
            m@ == self@.source(
                init_segment_url@,
                segments@,
                match segment_base {
                    Some(b) => Some(b@),
                    None => None,
                },
            ),
    {
        let init_byte_range: Option<(u64, u64)> = match &segment_base {
            Some(b) => Some(b.init_range),
            None => None,
        };
        let m: SourceManifest = SourceManifest {
            init_segment_url,
            segment_urls: segments.urls,
            segment_durations: segments.durations,
            is_live: self.live,
            source_scheme: self.scheme,
            ad_breaks: self.breaks,
            parts: Vec::new(),
            part_target_duration: None,
            server_control: None,
            ll_dash_info: self.latency,
            is_ts_source: false,
            aes128_key_url: None,
            aes128_iv: None,
            content_steering: self.steering,
            init_byte_range,
            segment_byte_ranges: Vec::new(),
            segment_base,
            source_variants: Vec::new(),
        };
        assert(m@.parts =~= Seq::empty());
        assert(m@.segment_byte_ranges =~= Seq::empty());
        assert(m@.source_variants =~= Seq::empty());
        m
    }

    /// The manifest that was read.
    fn finish(self, manifest_base: Url) -> (r: Result<SourceManifest, EdgepackError>)
        ensures
            cmaf::outcome_view(r) == self@.manifest(manifest_base@),
    {
        let base: Url = match &self.base_override {
            Some(u) => match Url::parse(u.as_str()) {
                Ok(v) => v,
                Err(_) => manifest_base,
            },
            None => manifest_base,
        };
        if let Some(pattern) = &self.media_template {
            let segments: Segments = match self.make_segments(&base, pattern.as_str()) {
                Ok(segments) => segments,
                Err(e) => return Err(e),
            };
            let init: String = match &self.init_template {
                Some(t) => match hls_input::resolve_url(&base, t.as_str()) {
                    Ok(init) => init,
                    Err(e) => return Err(e),
                },
                None => return Err(
                    EdgepackError::manifest("DASH MPD missing SegmentTemplate@initialization"),
                ),
            };
            return Ok(self.into_source(init, segments, None));
        }
        let (file_url, init_range, index_range, timescale) = match &self.found {
            Some(rep) => match hls_input::resolve_url(&base, rep.base_url.as_str()) {
                Ok(file_url) => (file_url, rep.init_range, rep.index_range, rep.timescale),
                Err(e) => return Err(e),
            },
            None => return Err(
                EdgepackError::manifest(
                    "DASH MPD missing both SegmentTemplate and SegmentBase \u{2014} unsupported manifest format",
                ),
            ),
        };
        let init: String = file_url.clone();
        let file: SegmentBaseSource = SegmentBaseSource {
            file_url,
            init_range,
            index_range,
            timescale,
        };
        Ok(self.into_source(init, Segments::new(), Some(file)))
    }
}

/// The contents of a list of events.
pub open spec fn events_view(list: Seq<Result<XmlEvent, String>>) -> Seq<
    Result<EventView, Seq<char>>,
> {
    list.map_values(|e: Result<XmlEvent, String>| xml::event_outcome(e))
}

/// The error for an MPD that is not well-formed.
fn xml_error(message: &str) -> (e: EdgepackError)
    ensures
        e@ == ErrorView::Manifest("MPD XML parse error: "@ + message@),
{
    let mut whole: String = "MPD XML parse error: ".to_owned();
    whole.push_str(message);
    EdgepackError::Manifest(whole)
}

/// Reads the events of a DASH MPD into a `SourceManifest`. An event that could not be read
/// is given as the message of its error.
#[verifier::loop_isolation(false)]
pub fn parse_dash_events(events: &Vec<Result<XmlEvent, String>>, manifest_url: &str) -> (r: Result<
    SourceManifest,
    EdgepackError,
>)
    ensures
        cmaf::outcome_view(r) == dash_source(events_view(events@), manifest_url@),
{
    let base: Url = match hls_input::parse_base(manifest_url) {
        Ok(base) => base,
        Err(e) => return Err(e),
    };
    let ghost views = events_view(events@);
    let mut mpd: Mpd = Mpd::new();
    let mut i: usize = 0;
    while i < events.len()
        invariant
            i <= events.len(),
            MpdView::fresh().steps(views, 0) == mpd@.steps(views, i as int),
        decreases events.len() - i,
    {
        assert(views[i as int] == xml::event_outcome(events@[i as int]));
        match &events[i] {
            Ok(e) => {
                mpd.read(e);
            },
            Err(m) => {
                return Err(xml_error(m.as_str()));
            },
        }
        i = i + 1;
    }
    mpd.finish(base)
}

/// Parse a DASH MPD manifest into a `SourceManifest`.
///
/// Supports the most common CMAF DASH patterns:
/// - `<SegmentTemplate>` with `<SegmentTimeline>` and `$Number$` substitution
/// - `<SegmentTemplate>` with `duration` attribute (uniform segments)
/// - `<SegmentBase>` with `<BaseURL>` and byte-range indexing (on-demand profile)
///
/// For `SegmentBase` manifests, the returned `SourceManifest` will have a populated
/// `segment_base` field containing sidx resolution metadata. The caller (pipeline)
/// must fetch the sidx box and resolve segment byte ranges before processing.
///
/// The `manifest_url` is used as the base for resolving relative segment URIs.
#[verifier::loop_isolation(false)]
pub fn parse_dash_manifest(manifest_text: &str, manifest_url: &str) -> (r: Result<
    SourceManifest,
    EdgepackError,
>)
    ensures
        cmaf::outcome_view(r) == dash_source(xml::xml_events(manifest_text@), manifest_url@),
{
    let base: Url = match hls_input::parse_base(manifest_url) {
        Ok(base) => base,
        Err(e) => return Err(e),
    };
    let ghost all = xml::xml_events(manifest_text@);
    let mut reader: quick_xml::Reader<&[u8]> = xml::xml_reader(manifest_text);
    let mut mpd: Mpd = Mpd::new();
    let ghost mut i: int = 0;
    assert(all.subrange(0, all.len() as int) =~= all);
    loop
        invariant
            0 <= i <= all.len(),
            xml::xml_ahead(reader) == all.subrange(i, all.len() as int),
            MpdView::fresh().steps(all, 0) == mpd@.steps(all, i),
        decreases all.len() - i,
    {
        let event: Result<XmlEvent, String> = xml::next_event(&mut reader);
        match event {
            Ok(XmlEvent::Finish) => {
                return mpd.finish(base);
            },
            Ok(e) => {
                mpd.read(&e);
            },
            Err(m) => {
                return Err(xml_error(m.as_str()));
            },
        }
        proof {
            assert(all.subrange(i, all.len() as int).drop_first() =~= all.subrange(
                i + 1,
                all.len() as int,
            ));
            i = i + 1;
        }
    }
}

proof fn lemma_timeline_parallel(
    base: UrlView,
    pattern: Seq<char>,
    timeline: Seq<(u64, u32)>,
    scale: nat,
    j: int,
    k: int,
    number: u32,
    got: SegmentList,
)
    requires
        got.0.len() == got.1.len(),
    ensures
        timeline_segments(base, pattern, timeline, scale, j, k, number, got) matches Ok(all)
            ==> all.0.len() == all.1.len(),
    decreases
            timeline.len() - j,
            (if 0 <= j < timeline.len() && k <= timeline[j].1 {
                timeline[j].1 + 1 - k
            } else {
                0
            }),
{
    if 0 <= j < timeline.len() {
        if k > timeline[j].1 {
            lemma_timeline_parallel(base, pattern, timeline, scale, j + 1, 0, number, got);
        } else if let Ok(u) = media_url(base, pattern, number) {
            lemma_timeline_parallel(
                base,
                pattern,
                timeline,
                scale,
                j,
                k + 1,
                number_after(number, 1),
                (got.0.push(u), got.1.push(decimal::of_ticks(timeline[j].0 as nat, scale))),
            );
        }
    }
}

proof fn lemma_uniform_parallel(
    base: UrlView,
    pattern: Seq<char>,
    total: Decimal,
    d: nat,
    scale: nat,
    start: u32,
    i: nat,
    got: SegmentList,
)
    requires
        got.0.len() == got.1.len(),
        got.0.len() == i,
        i <= uniform_count(total, d, scale),
    ensures
        uniform_segments(base, pattern, total, d, scale, start, i, got) matches Ok(all)
            ==> all.0.len() == all.1.len() && all.0.len() == uniform_count(total, d, scale),
    decreases uniform_count(total, d, scale) - i,
{
    if i < uniform_count(total, d, scale) {
        if let Ok(u) = media_url(base, pattern, number_after(start, i)) {
            lemma_uniform_parallel(
                base,
                pattern,
                total,
                d,
                scale,
                start,
                i + 1,
                (got.0.push(u), got.1.push(uniform_duration(total, d, scale, i))),
            );
        }
    }
}

/// The durations of a source manifest are parallel to its segments.
pub proof fn segment_durations_parallel(
    events: Seq<Result<EventView, Seq<char>>>,
    manifest_url: Seq<char>,
)
    ensures
        dash_source(events, manifest_url) matches Ok(m) ==> m.segment_urls.len()
            == m.segment_durations.len(),
{
    if let Ok(manifest_base) = hls_input::base_of(manifest_url) {
        if let Ok(m) = MpdView::fresh().steps(events, 0) {
            let base = m.base(manifest_base);
            let none: SegmentList = (Seq::empty(), Seq::empty());
            if let Some(pattern) = m.media_template {
                lemma_timeline_parallel(
                    base,
                    pattern,
                    m.timeline,
                    m.timescale as nat,
                    0,
                    0,
                    m.start_number,
                    none,
                );
                if let (Some(d), Some(total)) = (m.uniform, m.total) {
                    lemma_uniform_parallel(
                        base,
                        pattern,
                        total,
                        d as nat,
                        m.timescale as nat,
                        m.start_number,
                        0,
                        none,
                    );
                }
            }
        }
    }
}

/// The template of the first video set is kept for good: nothing that follows changes it.
#[verifier::spinoff_prover]
#[verifier::rlimit(80)]
pub proof fn video_template_is_kept(m: MpdView, e: EventView)
    requires
        m.video_template,
    ensures
        ({
            let next = m.step(e);
            &&& next.video_template
            &&& next.media_template == m.media_template
            &&& next.init_template == m.init_template
            &&& next.timescale == m.timescale
            &&& next.start_number == m.start_number
            &&& next.uniform == m.uniform
            &&& next.latency == m.latency
        }),
{
}

/// A single file of a video set that was found is kept for good.
pub proof fn video_file_is_kept(m: MpdView, e: EventView)
    requires
        m.found is Some,
        m.found->0.is_video,
    ensures
        m.step(e).found == m.found,
{
}

/// An ad break that was read is never dropped or changed.
#[verifier::spinoff_prover]
#[verifier::rlimit(60)]
pub proof fn read_ad_breaks_stay(m: MpdView, e: EventView)
    ensures
        m.breaks.is_prefix_of(m.step(e).breaks),
{
}

} // verus!
