//! DASH MPDs.

use crate::chars;
use crate::decimal;
use crate::decimal::Decimal;
use crate::error::EdgepackError;
use crate::manifest::types::{
    AdBreakInfo, CeaCaptionInfo, LowLatencyDashInfo, ManifestDrmInfo, ManifestPhase, ManifestState,
    SegmentInfo, TrackMediaType, VariantInfo,
};
use crate::text;
use vstd::prelude::*;

verus! {

/// A duration in ISO 8601 form: hours and minutes where there are any, and seconds with three
/// decimal places. Infinity has as many hours as 64 bits count.
pub open spec fn iso8601(d: Decimal) -> Seq<char> {
    if d.nanos <= 0 {
        "PT0S"@
    } else if d.infinite() {
        "PT"@ + text::dec(u64::MAX as nat) + "H"@
    } else {
        let hours = decimal::counted(d.nanos as nat / 3_600_000_000_000);
        let minutes = (d.nanos as nat % 3_600_000_000_000) / 60_000_000_000;
        let secs = Decimal { nanos: (d.nanos as nat % 60_000_000_000) as i128 };
        "PT"@ + (if hours > 0 {
            text::dec(hours) + "H"@
        } else {
            Seq::empty()
        }) + (if minutes > 0 {
            text::dec(minutes) + "M"@
        } else {
            Seq::empty()
        }) + (if secs.nanos > 0 || (hours == 0 && minutes == 0) {
            secs.fixed(3) + "S"@
        } else {
            Seq::empty()
        })
    }
}

/// Appends a text.
fn put_string(out: &mut String, t: String)
    ensures
        final(out)@ == old(out)@ + t@,
{
    out.push_str(t.as_str());
}

/// A number and a unit, or nothing for zero.
fn count_text(n: u64, unit: &str) -> (out: String)
    ensures
        out@ == (if n > 0 {
            text::dec(n as nat) + unit@
        } else {
            Seq::empty()
        }),
{
    let mut out: String = String::new();
    assert(out@ =~= Seq::empty());
    if n > 0 {
        text::put_dec(&mut out, n);
        out.push_str(unit);
        assert(out@ =~= text::dec(n as nat) + unit@);
    }
    out
}

/// Format a duration in seconds as ISO 8601 duration (e.g., "PT2M0.500S").
pub fn format_iso8601_duration(seconds: Decimal) -> (out: String)
    ensures
        out@ == iso8601(seconds),
{
    if seconds.nanos <= 0 {
        return "PT0S".to_owned();
    }
    if seconds.is_infinite() {
        let mut out: String = "PT".to_owned();
        text::put_dec(&mut out, u64::MAX);
        out.push_str("H");
        return out;
    }
    let nanos: u128 = seconds.nanos as u128;
    let hours: u64 = decimal::count_of(nanos / 3_600_000_000_000);
    let minutes: u64 = ((nanos % 3_600_000_000_000) / 60_000_000_000) as u64;
    let secs: Decimal = Decimal { nanos: (nanos % 60_000_000_000) as i128 };
    let mut out: String = "PT".to_owned();
    put_string(&mut out, count_text(hours, "H"));
    put_string(&mut out, count_text(minutes, "M"));
    let mut tail: String = String::new();
    assert(tail@ =~= Seq::empty());
    if secs.nanos > 0 || (hours == 0 && minutes == 0) {
        secs.put_fixed(&mut tail, 3);
        tail.push_str("S");
        assert(tail@ =~= secs.fixed(3) + "S"@);
    }
    put_string(&mut out, tail);
    out
}

/// A key identifier of 32 characters with hyphens; any other stays.
pub open spec fn hyphenated(kid: Seq<char>) -> Seq<char> {
    if kid.len() != 32 {
        kid
    } else {
        kid.subrange(0, 8) + "-"@ + kid.subrange(8, 12) + "-"@ + kid.subrange(12, 16) + "-"@
            + kid.subrange(16, 20) + "-"@ + kid.subrange(20, 32)
    }
}

/// Format a hex KID string as a UUID with hyphens.
pub fn format_kid_with_hyphens(kid_hex: &str) -> (out: String)
    ensures
        out@ == hyphenated(kid_hex@),
{
    let kid: Vec<char> = chars::chars_of(kid_hex);
    if kid.len() != 32 {
        return kid_hex.to_owned();
    }
    let s: &[char] = kid.as_slice();
    let mut out: String = chars::string_of(&s[0..8]);
    out.push_str("-");
    put_string(&mut out, chars::string_of(&s[8..12]));
    out.push_str("-");
    put_string(&mut out, chars::string_of(&s[12..16]));
    out.push_str("-");
    put_string(&mut out, chars::string_of(&s[16..20]));
    out.push_str("-");
    put_string(&mut out, chars::string_of(&s[20..32]));
    out
}

/// A text, where there is one, between two others.
pub open spec fn wrapped(head: Seq<char>, t: Option<String>, tail: Seq<char>) -> Seq<char> {
    match t {
        Some(s) => head + s@ + tail,
        None => Seq::empty(),
    }
}

/// A text, where there is one, between two others.
fn wrapped_text(head: &str, t: &Option<String>, tail: &str) -> (out: String)
    ensures
        out@ == wrapped(head@, *t, tail@),
{
    match t {
        Some(s) => {
            let mut out: String = head.to_owned();
            out.push_str(s.as_str());
            out.push_str(tail);
            out
        },
        None => {
            let none: String = String::new();
            assert(none@ =~= Seq::empty());
            none
        },
    }
}

/// The PlayReady element.
pub open spec fn playready_xml(d: ManifestDrmInfo) -> Seq<char> {
    if d.playready_pssh is Some || d.playready_pro is Some {
        "      <ContentProtection schemeIdUri=\"urn:uuid:9a04f079-9840-4286-ab92-e65be0885f95\">\n"@
            + wrapped("        <cenc:pssh>"@, d.playready_pssh, "</cenc:pssh>\n"@) + wrapped(
            "        <mspr:pro>"@,
            d.playready_pro,
            "</mspr:pro>\n"@,
        ) + "      </ContentProtection>\n"@
    } else {
        Seq::empty()
    }
}

/// The PlayReady element.
fn playready_text(d: &ManifestDrmInfo) -> (out: String)
    ensures
        out@ == playready_xml(*d),
{
    if d.playready_pssh.is_none() && d.playready_pro.is_none() {
        let none: String = String::new();
        assert(none@ =~= Seq::empty());
        return none;
    }
    let mut out: String =
        "      <ContentProtection schemeIdUri=\"urn:uuid:9a04f079-9840-4286-ab92-e65be0885f95\">\n".to_owned();
    put_string(
        &mut out,
        wrapped_text("        <cenc:pssh>", &d.playready_pssh, "</cenc:pssh>\n"),
    );
    put_string(&mut out, wrapped_text("        <mspr:pro>", &d.playready_pro, "</mspr:pro>\n"));
    out.push_str("      </ContentProtection>\n");
    out
}

/// The content protection elements of a set of DRM data.
pub open spec fn protection_of(d: ManifestDrmInfo) -> Seq<char> {
    "      <ContentProtection schemeIdUri=\"urn:mpeg:dash:mp4protection:2011\" value=\""@
        + d.encryption_scheme.name() + "\" cenc:default_KID=\""@ + hyphenated(d.default_kid@)
        + "\"/>\n"@ + wrapped(
        "      <ContentProtection schemeIdUri=\"urn:uuid:edef8ba9-79d6-4ace-a3c8-27dcd51d21ed\">\n        <cenc:pssh>"@,
        d.widevine_pssh,
        "</cenc:pssh>\n      </ContentProtection>\n"@,
    ) + playready_xml(d) + wrapped(
        "      <ContentProtection schemeIdUri=\"urn:uuid:e2719d58-a985-b3c9-781a-b030af78d30e\">\n        <cenc:pssh>"@,
        d.clearkey_pssh,
        "</cenc:pssh>\n      </ContentProtection>\n"@,
    )
}

/// The content protection elements of a manifest.
pub open spec fn protection_xml(s: ManifestState) -> Seq<char> {
    match s.drm_info {
        Some(d) => protection_of(d),
        None => Seq::empty(),
    }
}

/// Build ContentProtection XML elements for DASH.
pub fn build_content_protection_xml(state: &ManifestState) -> (xml: String)
    ensures
        xml@ == protection_xml(*state),
{
    let drm: &ManifestDrmInfo = match &state.drm_info {
        Some(drm) => drm,
        None => {
            let none: String = String::new();
            assert(none@ =~= Seq::empty());
            return none;
        },
    };
    let mut xml: String =
        "      <ContentProtection schemeIdUri=\"urn:mpeg:dash:mp4protection:2011\" value=\"".to_owned();
    xml.push_str(drm.encryption_scheme.scheme_type_str());
    xml.push_str("\" cenc:default_KID=\"");
    put_string(&mut xml, format_kid_with_hyphens(drm.default_kid.as_str()));
    xml.push_str("\"/>\n");
    put_string(
        &mut xml,
        wrapped_text(
            "      <ContentProtection schemeIdUri=\"urn:uuid:edef8ba9-79d6-4ace-a3c8-27dcd51d21ed\">\n        <cenc:pssh>",
            &drm.widevine_pssh,
            "</cenc:pssh>\n      </ContentProtection>\n",
        ),
    );
    put_string(&mut xml, playready_text(drm));
    put_string(
        &mut xml,
        wrapped_text(
            "      <ContentProtection schemeIdUri=\"urn:uuid:e2719d58-a985-b3c9-781a-b030af78d30e\">\n        <cenc:pssh>",
            &drm.clearkey_pssh,
            "</cenc:pssh>\n      </ContentProtection>\n",
        ),
    );
    xml
}

/// The low-latency attributes of a segment template.
pub open spec fn latency_attrs(ll: Option<LowLatencyDashInfo>) -> Seq<char> {
    match ll {
        None => Seq::empty(),
        Some(i) => " availabilityTimeOffset=\""@ + i.availability_time_offset.fixed(3) + "\""@ + (
        if i.availability_time_complete {
            Seq::empty()
        } else {
            " availabilityTimeComplete=\"false\""@
        }),
    }
}

/// The low-latency attributes of a segment template.
fn latency_text(ll: &Option<LowLatencyDashInfo>) -> (out: String)
    ensures
        out@ == latency_attrs(*ll),
{
    match ll {
        None => {
            let none: String = String::new();
            assert(none@ =~= Seq::empty());
            none
        },
        Some(i) => {
            let mut out: String = " availabilityTimeOffset=\"".to_owned();
            i.availability_time_offset.put_fixed(&mut out, 3);
            out.push_str("\"");
            if i.availability_time_complete {
                assert(out@ =~= out@ + Seq::<char>::empty());
            } else {
                out.push_str(" availabilityTimeComplete=\"false\"");
            }
            out
        },
    }
}

/// The timeline entries of the first `n` segments, in milliseconds.
pub open spec fn timeline(segments: Seq<SegmentInfo>, n: nat) -> Seq<char>
    decreases n,
{
    if n == 0 {
        Seq::empty()
    } else {
        timeline(segments, (n - 1) as nat) + "          <S d=\""@ + text::dec(
            segments[n - 1].duration.in_ticks(1000),
        ) + "\"/>\n"@
    }
}

/// The timeline entries of the segments.
fn timeline_text(segments: &Vec<SegmentInfo>) -> (out: String)
    ensures
        out@ == timeline(segments@, segments@.len()),
{
    let mut out: String = String::new();
    let mut i: usize = 0;
    assert(out@ =~= Seq::empty());
    while i < segments.len()
        invariant
            i <= segments.len(),
            out@ == timeline(segments@, i as nat),
        decreases segments.len() - i,
    {
        out.push_str("          <S d=\"");
        text::put_dec(&mut out, segments[i].duration.ticks(1000));
        out.push_str("\"/>\n");
        i = i + 1;
    }
    out
}

/// The URI of the init segment.
pub open spec fn init_uri(s: ManifestState) -> Seq<char> {
    match s.init_segment {
        Some(i) => i.uri@,
        None => "init.mp4"@,
    }
}

/// The segment template of a manifest.
pub open spec fn segment_template(s: ManifestState) -> Seq<char> {
    "      <SegmentTemplate timescale=\"1000\" initialization=\""@ + init_uri(s) + "\" media=\""@
        + s.base_url@ + "segment_$Number$"@ + s.container_format.video_extension()
        + "\" startNumber=\"0\""@ + latency_attrs(s.ll_dash_info) + ">\n        <SegmentTimeline>\n"@
        + timeline(s.segments@, s.segments@.len())
        + "        </SegmentTimeline>\n      </SegmentTemplate>\n"@
}

/// Build SegmentTemplate element for DASH.
pub fn build_segment_template(state: &ManifestState) -> (xml: String)
    ensures
        xml@ == segment_template(*state),
{
    let mut xml: String =
        "      <SegmentTemplate timescale=\"1000\" initialization=\"".to_owned();
    match &state.init_segment {
        Some(i) => {
            xml.push_str(i.uri.as_str());
        },
        None => {
            xml.push_str("init.mp4");
        },
    }
    xml.push_str("\" media=\"");
    xml.push_str(state.base_url.as_str());
    xml.push_str("segment_$Number$");
    xml.push_str(state.container_format.video_segment_extension());
    xml.push_str("\" startNumber=\"0\"");
    put_string(&mut xml, latency_text(&state.ll_dash_info));
    xml.push_str(">\n        <SegmentTimeline>\n");
    put_string(&mut xml, timeline_text(&state.segments));
    xml.push_str("        </SegmentTimeline>\n      </SegmentTemplate>\n");
    xml
}

/// How long the first `n` segments last together.
pub open spec fn total_of(segments: Seq<SegmentInfo>, n: nat) -> Decimal
    decreases n,
{
    if n == 0 {
        Decimal { nanos: 0 }
    } else {
        total_of(segments, (n - 1) as nat).sum(segments[n - 1].duration)
    }
}

/// How long all segments last together.
fn total_duration(segments: &Vec<SegmentInfo>) -> (d: Decimal)
    ensures
        d == total_of(segments@, segments@.len()),
{
    let mut acc: Decimal = Decimal { nanos: 0 };
    let mut i: usize = 0;
    while i < segments.len()
        invariant
            i <= segments.len(),
            acc == total_of(segments@, i as nat),
        decreases segments.len() - i,
    {
        acc = acc.plus(segments[i].duration);
        i = i + 1;
    }
    acc
}

/// The event of an ad break, in ticks of a 90 kHz clock.
pub open spec fn event_xml(b: AdBreakInfo) -> Seq<char> {
    "      <Event presentationTime=\""@ + text::dec(b.presentation_time.in_ticks(90000))
        + "\" duration=\""@ + text::dec(
        match b.duration {
            Some(d) => d.in_ticks(90000),
            None => 0,
        },
    ) + "\" id=\""@ + text::dec(b.id as nat) + "\""@ + (match b.scte35_cmd {
        Some(cmd) => ">"@ + cmd@ + "</Event>\n"@,
        None => "/>\n"@,
    })
}

/// The event of an ad break.
fn event_text(b: &AdBreakInfo) -> (out: String)
    ensures
        out@ == event_xml(*b),
{
    let mut out: String = "      <Event presentationTime=\"".to_owned();
    text::put_dec(&mut out, b.presentation_time.ticks(90000));
    out.push_str("\" duration=\"");
    let duration: u64 = match b.duration {
        Some(d) => d.ticks(90000),
        None => 0,
    };
    text::put_dec(&mut out, duration);
    out.push_str("\" id=\"");
    text::put_dec(&mut out, b.id as u64);
    out.push_str("\"");
    match &b.scte35_cmd {
        Some(cmd) => {
            let mut body: String = ">".to_owned();
            body.push_str(cmd.as_str());
            body.push_str("</Event>\n");
            put_string(&mut out, body);
        },
        None => {
            out.push_str("/>\n");
        },
    }
    out
}

/// The events of the first `n` ad breaks.
pub open spec fn events_xml(list: Seq<AdBreakInfo>, n: nat) -> Seq<char>
    decreases n,
{
    if n == 0 {
        Seq::empty()
    } else {
        events_xml(list, (n - 1) as nat) + event_xml(list[n - 1])
    }
}

/// The event stream with all ad breaks; none without any.
pub open spec fn event_stream(list: Seq<AdBreakInfo>) -> Seq<char> {
    if list.len() == 0 {
        Seq::empty()
    } else {
        "    <EventStream schemeIdUri=\"urn:scte:scte35:2013:bin\" timescale=\"90000\">\n"@
            + events_xml(list, list.len()) + "    </EventStream>\n"@
    }
}

/// The event stream with all ad breaks.
fn event_stream_text(list: &Vec<AdBreakInfo>) -> (out: String)
    ensures
        out@ == event_stream(list@),
{
    if list.len() == 0 {
        let none: String = String::new();
        assert(none@ =~= Seq::empty());
        return none;
    }
    let mut events: String = String::new();
    let mut i: usize = 0;
    assert(events@ =~= Seq::empty());
    while i < list.len()
        invariant
            i <= list.len(),
            events@ == events_xml(list@, i as nat),
        decreases list.len() - i,
    {
        put_string(&mut events, event_text(&list[i]));
        i = i + 1;
    }
    let mut out: String =
        "    <EventStream schemeIdUri=\"urn:scte:scte35:2013:bin\" timescale=\"90000\">\n".to_owned();
    put_string(&mut out, events);
    out.push_str("    </EventStream>\n");
    out
}

/// The accessibility descriptors of the first `n` closed caption channels.
pub open spec fn captions_xml(list: Seq<CeaCaptionInfo>, n: nat) -> Seq<char>
    decreases n,
{
    if n == 0 {
        Seq::empty()
    } else {
        let c = list[n - 1];
        captions_xml(list, (n - 1) as nat) + "      <Accessibility schemeIdUri=\""@ + (if c.is_608 {
            "urn:scte:dash:cc:cea-608:2015"@
        } else {
            "urn:scte:dash:cc:cea-708:2015"@
        }) + "\" value=\""@ + c.service_name@ + "="@ + c.language@ + "\"/>\n"@
    }
}

/// The accessibility descriptors of the closed caption channels.
fn captions_text(list: &Vec<CeaCaptionInfo>) -> (out: String)
    ensures
        out@ == captions_xml(list@, list@.len()),
{
    let mut out: String = String::new();
    let mut i: usize = 0;
    assert(out@ =~= Seq::empty());
    while i < list.len()
        invariant
            i <= list.len(),
            out@ == captions_xml(list@, i as nat),
        decreases list.len() - i,
    {
        out.push_str("      <Accessibility schemeIdUri=\"");
        if list[i].is_608 {
            out.push_str("urn:scte:dash:cc:cea-608:2015");
        } else {
            out.push_str("urn:scte:dash:cc:cea-708:2015");
        }
        out.push_str("\" value=\"");
        out.push_str(list[i].service_name.as_str());
        out.push_str("=");
        out.push_str(list[i].language.as_str());
        out.push_str("\"/>\n");
        i = i + 1;
    }
    out
}

/// The codecs attribute; none for an empty codec string.
pub open spec fn codecs_attr(codecs: Seq<char>) -> Seq<char> {
    if codecs.len() == 0 {
        Seq::empty()
    } else {
        " codecs=\""@ + codecs + "\""@
    }
}

/// The codecs attribute.
fn codecs_text(codecs: &str) -> (out: String)
    ensures
        out@ == codecs_attr(codecs@),
{
    let chars: Vec<char> = chars::chars_of(codecs);
    if chars.len() == 0 {
        let none: String = String::new();
        assert(none@ =~= Seq::empty());
        return none;
    }
    let mut out: String = " codecs=\"".to_owned();
    out.push_str(codecs);
    out.push_str("\"");
    out
}

/// The size attributes.
pub open spec fn size_attrs(size: Option<(u32, u32)>) -> Seq<char> {
    match size {
        Some((w, h)) => " width=\""@ + text::dec(w as nat) + "\" height=\""@ + text::dec(h as nat)
            + "\""@,
        None => Seq::empty(),
    }
}

/// The size attributes.
fn size_text(size: Option<(u32, u32)>) -> (out: String)
    ensures
        out@ == size_attrs(size),
{
    match size {
        Some((w, h)) => {
            let mut out: String = " width=\"".to_owned();
            text::put_dec(&mut out, w as u64);
            out.push_str("\" height=\"");
            text::put_dec(&mut out, h as u64);
            out.push_str("\"");
            out
        },
        None => {
            let none: String = String::new();
            assert(none@ =~= Seq::empty());
            none
        },
    }
}

/// The frame rate attribute.
pub open spec fn rate_attr(rate: Option<Decimal>) -> Seq<char> {
    match rate {
        Some(d) => " frameRate=\""@ + d.shortest() + "\""@,
        None => Seq::empty(),
    }
}

/// The frame rate attribute.
fn rate_text(rate: Option<Decimal>) -> (out: String)
    ensures
        out@ == rate_attr(rate),
{
    match rate {
        Some(d) => {
            let mut out: String = " frameRate=\"".to_owned();
            d.put_shortest(&mut out);
            out.push_str("\"");
            out
        },
        None => {
            let none: String = String::new();
            assert(none@ =~= Seq::empty());
            none
        },
    }
}

/// How a variant is shown: as it is, or as a trick play representation with a tenth of the
/// bandwidth.
pub open spec fn representation(v: VariantInfo, trick: bool) -> Seq<char> {
    "      <Representation id=\""@ + v.id@ + (if trick {
        "_trick\" bandwidth=\""@
    } else {
        "\" bandwidth=\""@
    }) + text::dec(
        if trick {
            v.bandwidth as nat / 10
        } else {
            v.bandwidth as nat
        },
    ) + "\""@ + codecs_attr(v.codecs@) + (if v.track_type is Video {
        size_attrs(v.resolution)
    } else {
        Seq::empty()
    }) + (if v.track_type is Video && !trick {
        rate_attr(v.frame_rate)
    } else {
        Seq::empty()
    }) + ">\n      </Representation>\n"@
}

/// The element of a variant.
fn representation_text(v: &VariantInfo, trick: bool) -> (out: String)
    ensures
        out@ == representation(*v, trick),
{
    let is_video: bool = match v.track_type {
        TrackMediaType::Video => true,
        _ => false,
    };
    let mut out: String = "      <Representation id=\"".to_owned();
    out.push_str(v.id.as_str());
    if trick {
        out.push_str("_trick\" bandwidth=\"");
        text::put_dec(&mut out, v.bandwidth / 10);
    } else {
        out.push_str("\" bandwidth=\"");
        text::put_dec(&mut out, v.bandwidth);
    }
    out.push_str("\"");
    put_string(&mut out, codecs_text(v.codecs.as_str()));
    if is_video {
        put_string(&mut out, size_text(v.resolution));
    } else {
        assert(out@ =~= out@ + Seq::<char>::empty());
    }
    if is_video && !trick {
        put_string(&mut out, rate_text(v.frame_rate));
    } else {
        assert(out@ =~= out@ + Seq::<char>::empty());
    }
    out.push_str(">\n      </Representation>\n");
    out
}

/// The elements of those of the first `n` variants that are of a kind.
pub open spec fn representations(
    variants: Seq<VariantInfo>,
    kind: TrackMediaType,
    trick: bool,
    n: nat,
) -> Seq<char>
    decreases n,
{
    if n == 0 {
        Seq::empty()
    } else if variants[n - 1].track_type == kind {
        representations(variants, kind, trick, (n - 1) as nat) + representation(
            variants[n - 1],
            trick,
        )
    } else {
        representations(variants, kind, trick, (n - 1) as nat)
    }
}

/// The first of the variants from `i` on that is of a kind.
pub open spec fn first_of_kind(variants: Seq<VariantInfo>, kind: TrackMediaType, i: int) -> Option<
    VariantInfo,
>
    decreases variants.len() - i,
{
    if i < 0 || i >= variants.len() {
        None
    } else if variants[i].track_type == kind {
        Some(variants[i])
    } else {
        first_of_kind(variants, kind, i + 1)
    }
}

/// The elements of the variants of a kind.
fn representations_text(variants: &Vec<VariantInfo>, kind: TrackMediaType, trick: bool) -> (out:
    String)
    ensures
        out@ == representations(variants@, kind, trick, variants@.len()),
{
    let mut out: String = String::new();
    let mut i: usize = 0;
    assert(out@ =~= Seq::empty());
    while i < variants.len()
        invariant
            i <= variants.len(),
            out@ == representations(variants@, kind, trick, i as nat),
        decreases variants.len() - i,
    {
        if variants[i].track_type == kind {
            put_string(&mut out, representation_text(&variants[i], trick));
        }
        i = i + 1;
    }
    out
}

/// The index of the first variant of a kind.
#[verifier::loop_isolation(false)]
fn find_kind(variants: &Vec<VariantInfo>, kind: TrackMediaType) -> (at: Option<usize>)
    ensures
        match at {
            Some(i) => i < variants@.len() && first_of_kind(variants@, kind, 0) == Some(
                variants@[i as int],
            ),
            None => first_of_kind(variants@, kind, 0) is None,
        },
{
    let mut i: usize = 0;
    while i < variants.len()
        invariant
            i <= variants.len(),
            first_of_kind(variants@, kind, 0) == first_of_kind(variants@, kind, i as int),
        decreases variants.len() - i,
    {
        if variants[i].track_type == kind {
            return Some(i);
        }
        i = i + 1;
    }
    None
}

/// Whether the manifest offers trick play.
pub open spec fn has_trick_play(s: ManifestState) -> bool {
    s.enable_iframe_playlist && s.iframe_segments@.len() > 0
}

/// The representations of the video set; one without details where there are no variants.
pub open spec fn video_representations(s: ManifestState, trick: bool) -> Seq<char> {
    if first_of_kind(s.variants@, TrackMediaType::Video, 0) is None {
        if trick {
            "      <Representation id=\"video_trick\" bandwidth=\"200000\">\n      </Representation>\n"@
        } else {
            "      <Representation id=\"video\" bandwidth=\"2000000\">\n      </Representation>\n"@
        }
    } else {
        representations(s.variants@, TrackMediaType::Video, trick, s.variants@.len())
    }
}

/// The representations of the video set.
fn video_representations_text(s: &ManifestState, trick: bool) -> (out: String)
    ensures
        out@ == video_representations(*s, trick),
{
    if find_kind(&s.variants, TrackMediaType::Video).is_some() {
        return representations_text(&s.variants, TrackMediaType::Video, trick);
    }
    if trick {
        "      <Representation id=\"video_trick\" bandwidth=\"200000\">\n      </Representation>\n".to_owned()
    } else {
        "      <Representation id=\"video\" bandwidth=\"2000000\">\n      </Representation>\n".to_owned()
    }
}

/// The trick play set, which refers to the main video set.
pub open spec fn trick_set(s: ManifestState) -> Seq<char> {
    if has_trick_play(s) {
        "    <AdaptationSet contentType=\"video\" mimeType=\"video/mp4\" segmentAlignment=\"true\">\n      <EssentialProperty schemeIdUri=\"http://dashif.org/guidelines/trickmode\" value=\"1\"/>\n"@
            + segment_template(s) + video_representations(s, true) + "    </AdaptationSet>\n"@
    } else {
        Seq::empty()
    }
}

/// The video set and its trick play set. A manifest without any variants has one too.
pub open spec fn video_set(s: ManifestState) -> Seq<char> {
    if first_of_kind(s.variants@, TrackMediaType::Video, 0) is None && s.variants@.len() > 0 {
        Seq::empty()
    } else {
        (if has_trick_play(s) {
            "    <AdaptationSet id=\"1\" contentType=\"video\" mimeType=\"video/mp4\" segmentAlignment=\"true\">\n"@
        } else {
            "    <AdaptationSet contentType=\"video\" mimeType=\"video/mp4\" segmentAlignment=\"true\">\n"@
        }) + protection_xml(s) + captions_xml(s.cea_captions@, s.cea_captions@.len())
            + segment_template(s) + video_representations(s, false) + "    </AdaptationSet>\n"@
            + trick_set(s)
    }
}

/// The trick play set.
fn trick_text(s: &ManifestState) -> (out: String)
    ensures
        out@ == trick_set(*s),
{
    if !s.enable_iframe_playlist || s.iframe_segments.len() == 0 {
        let none: String = String::new();
        assert(none@ =~= Seq::empty());
        return none;
    }
    let mut out: String =
        "    <AdaptationSet contentType=\"video\" mimeType=\"video/mp4\" segmentAlignment=\"true\">\n      <EssentialProperty schemeIdUri=\"http://dashif.org/guidelines/trickmode\" value=\"1\"/>\n".to_owned();
    put_string(&mut out, build_segment_template(s));
    put_string(&mut out, video_representations_text(s, true));
    out.push_str("    </AdaptationSet>\n");
    out
}

/// The video set and its trick play set.
fn video_text(s: &ManifestState) -> (out: String)
    ensures
        out@ == video_set(*s),
{
    if find_kind(&s.variants, TrackMediaType::Video).is_none() && s.variants.len() > 0 {
        let none: String = String::new();
        assert(none@ =~= Seq::empty());
        return none;
    }
    let mut out: String = if s.enable_iframe_playlist && s.iframe_segments.len() > 0 {
        "    <AdaptationSet id=\"1\" contentType=\"video\" mimeType=\"video/mp4\" segmentAlignment=\"true\">\n".to_owned()
    } else {
        "    <AdaptationSet contentType=\"video\" mimeType=\"video/mp4\" segmentAlignment=\"true\">\n".to_owned()
    };
    put_string(&mut out, build_content_protection_xml(s));
    put_string(&mut out, captions_text(&s.cea_captions));
    put_string(&mut out, build_segment_template(s));
    put_string(&mut out, video_representations_text(s, false));
    out.push_str("    </AdaptationSet>\n");
    put_string(&mut out, trick_text(s));
    out
}

/// An audio or subtitle set; none without variants of the kind. Its language is that of the
/// first variant, and subtitles are never protected.
pub open spec fn other_set(s: ManifestState, kind: TrackMediaType, head: Seq<char>) -> Seq<char> {
    match first_of_kind(s.variants@, kind, 0) {
        None => Seq::empty(),
        Some(first) => head + wrapped(" lang=\""@, first.language, "\""@) + ">\n"@ + (
        if kind is Audio {
            protection_xml(s)
        } else {
            Seq::empty()
        }) + segment_template(s) + representations(s.variants@, kind, false, s.variants@.len())
            + "    </AdaptationSet>\n"@,
    }
}

/// An audio or subtitle set.
fn other_text(s: &ManifestState, kind: TrackMediaType, head: &str) -> (out: String)
    ensures
        out@ == other_set(*s, kind, head@),
{
    let first: usize = match find_kind(&s.variants, kind) {
        Some(first) => first,
        None => {
            let none: String = String::new();
            assert(none@ =~= Seq::empty());
            return none;
        },
    };
    let mut out: String = head.to_owned();
    put_string(&mut out, wrapped_text(" lang=\"", &s.variants[first].language, "\""));
    out.push_str(">\n");
    match kind {
        TrackMediaType::Audio => {
            put_string(&mut out, build_content_protection_xml(s));
        },
        _ => {
            assert(out@ =~= out@ + Seq::<char>::empty());
        },
    }
    put_string(&mut out, build_segment_template(s));
    put_string(&mut out, representations_text(&s.variants, kind, false));
    out.push_str("    </AdaptationSet>\n");
    out
}

/// The opening tag of the MPD.
pub open spec fn mpd_head(s: ManifestState) -> Seq<char> {
    "<?xml version=\"1.0\" encoding=\"UTF-8\"?>\n<MPD xmlns=\"urn:mpeg:dash:schema:mpd:2011\" xmlns:cenc=\"urn:mpeg:cenc:2013\" xmlns:mspr=\"urn:microsoft:playready\" type=\""@
        + (if s.phase is Complete {
        "static"@
    } else {
        "dynamic"@
    }) + "\" profiles=\""@ + s.container_format.profiles() + "\""@ + (if s.phase is Complete {
        " mediaPresentationDuration=\""@ + iso8601(
            total_of(s.segments@, s.segments@.len()),
        ) + "\""@
    } else {
        " minimumUpdatePeriod=\"PT1S\" availabilityStartTime=\"1970-01-01T00:00:00Z\""@
    }) + " minBufferTime=\""@ + iso8601(s.target_duration) + "\">\n"@
}

/// The MPD of a manifest. Before the first segment it is the XML declaration alone.
pub open spec fn mpd_text(s: ManifestState) -> Seq<char> {
    if s.phase is AwaitingFirstSegment {
        "<?xml version=\"1.0\" encoding=\"UTF-8\"?>\n"@
    } else {
        mpd_head(s) + "  <Period id=\"0\">\n"@ + event_stream(s.ad_breaks@) + video_set(s) + other_set(
            s,
            TrackMediaType::Audio,
            "    <AdaptationSet contentType=\"audio\" mimeType=\"audio/mp4\" segmentAlignment=\"true\""@,
        ) + other_set(
            s,
            TrackMediaType::Subtitle,
            "    <AdaptationSet contentType=\"text\" mimeType=\"application/mp4\" segmentAlignment=\"true\""@,
        ) + "  </Period>\n</MPD>\n"@
    }
}

/// The opening tag of the MPD.
fn head_text(s: &ManifestState) -> (out: String)
    ensures
        out@ == mpd_head(*s),
{
    let complete: bool = s.is_complete();
    let mut out: String =
        "<?xml version=\"1.0\" encoding=\"UTF-8\"?>\n<MPD xmlns=\"urn:mpeg:dash:schema:mpd:2011\" xmlns:cenc=\"urn:mpeg:cenc:2013\" xmlns:mspr=\"urn:microsoft:playready\" type=\"".to_owned();
    if complete {
        out.push_str("static");
    } else {
        out.push_str("dynamic");
    }
    out.push_str("\" profiles=\"");
    out.push_str(s.container_format.dash_profiles());
    out.push_str("\"");
    if complete {
        let mut attr: String = " mediaPresentationDuration=\"".to_owned();
        put_string(&mut attr, format_iso8601_duration(total_duration(&s.segments)));
        attr.push_str("\"");
        put_string(&mut out, attr);
    } else {
        out.push_str(
            " minimumUpdatePeriod=\"PT1S\" availabilityStartTime=\"1970-01-01T00:00:00Z\"",
        );
    }
    out.push_str(" minBufferTime=\"");
    put_string(&mut out, format_iso8601_duration(s.target_duration));
    out.push_str("\">\n");
    out
}

/// Render a DASH MPD manifest from the current state.
///
/// - During `Live` phase: `type="dynamic"` with `minimumUpdatePeriod`
/// - During `Complete` phase: `type="static"` with `mediaPresentationDuration`
pub fn render(state: &ManifestState) -> (r: Result<String, EdgepackError>)
    ensures
        r matches Ok(t) && t@ == mpd_text(*state),
{
    match state.phase {
        ManifestPhase::AwaitingFirstSegment => {
            return Ok("<?xml version=\"1.0\" encoding=\"UTF-8\"?>\n".to_owned());
        },
        _ => {},
    }
    let mut mpd: String = head_text(state);
    mpd.push_str("  <Period id=\"0\">\n");
    put_string(&mut mpd, event_stream_text(&state.ad_breaks));
    put_string(&mut mpd, video_text(state));
    put_string(
        &mut mpd,
        other_text(
            state,
            TrackMediaType::Audio,
            "    <AdaptationSet contentType=\"audio\" mimeType=\"audio/mp4\" segmentAlignment=\"true\"",
        ),
    );
    put_string(
        &mut mpd,
        other_text(
            state,
            TrackMediaType::Subtitle,
            "    <AdaptationSet contentType=\"text\" mimeType=\"application/mp4\" segmentAlignment=\"true\"",
        ),
    );
    mpd.push_str("  </Period>\n</MPD>\n");
    Ok(mpd)
}

/// Once there is a segment, the MPD ends with its closing tags.
pub proof fn mpd_is_closed(s: ManifestState)
    requires
        !(s.phase is AwaitingFirstSegment),
    ensures
        ({
            let end = "  </Period>\n</MPD>\n"@;
            let m = mpd_text(s);
            end.len() <= m.len() && m.skip(m.len() - end.len()) == end
        }),
{
    let end = "  </Period>\n</MPD>\n"@;
    let m = mpd_text(s);
    assert(m.skip(m.len() - end.len()) =~= end);
}

} // verus!
