//! HLS playlists: media, I-frame and master playlists.

use crate::b64;
use crate::decimal::Decimal;
use crate::error::EdgepackError;
use crate::manifest::types;
use crate::manifest::types::{
    AdBreakInfo, CeaCaptionInfo, IFrameSegmentInfo, ManifestDrmInfo, ManifestPhase, ManifestState,
    PartInfo, SegmentInfo, ServerControl, TrackMediaType, VariantInfo,
};
use crate::text;
use vstd::prelude::*;

verus! {

/// The first `n` bytes in hexadecimal.
pub open spec fn hex_text(bytes: Seq<u8>, n: nat) -> Seq<char>
    decreases n,
{
    if n == 0 {
        Seq::empty()
    } else {
        hex_text(bytes, (n - 1) as nat) + text::hex2(bytes[n - 1])
    }
}

/// A base64 text in hexadecimal; a text that is not base64 stays.
pub open spec fn hex_of_base64(s: Seq<char>) -> Seq<char> {
    match b64::decoded(s) {
        Some(bytes) => hex_text(bytes, bytes.len()),
        None => s,
    }
}

/// Decode base64 SCTE-35 command and return hex-encoded string.
pub fn hex_encode_base64(b64: &str) -> (hex: String)
    ensures
        hex@ == hex_of_base64(b64@),
{
    let bytes: Vec<u8> = match b64::decode(b64) {
        Ok(bytes) => bytes,
        Err(_) => return b64.to_owned(),
    };
    proof {
        b64::decode_after_encode(bytes@);
    }
    let mut hex: String = String::new();
    let mut i: usize = 0;
    assert(hex@ =~= Seq::empty());
    while i < bytes.len()
        invariant
            i <= bytes.len(),
            hex@ == hex_text(bytes@, i as nat),
        decreases bytes.len() - i,
    {
        text::put_hex2(&mut hex, bytes[i]);
        i = i + 1;
    }
    hex
}

/// The key tag for whole-segment encryption of transport stream segments.
pub open spec fn ts_key(key_uri: Seq<char>) -> Seq<char> {
    "#EXT-X-KEY:METHOD=AES-128,URI=\""@ + key_uri + "\"\n"@
}

/// Emit HLS KEY tag for TS AES-128 whole-segment encryption.
///
/// For TS output, the method is always `AES-128` regardless of the target scheme.
/// The key URI points to a key delivery endpoint. IV defaults to the media sequence
/// number per the HLS spec (no explicit IV tag needed).
pub fn emit_hls_ts_key(m3u8: &mut String, key_uri: &str)
    ensures
        final(m3u8)@ == old(m3u8)@ + ts_key(key_uri@),
{
    m3u8.push_str("#EXT-X-KEY:METHOD=AES-128,URI=\"");
    m3u8.push_str(key_uri);
    m3u8.push_str("\"\n");
    assert(m3u8@ =~= old(m3u8)@ + ts_key(key_uri@));
}

/// A key tag for one DRM system.
pub open spec fn key_tag(
    tag: Seq<char>,
    method: Seq<char>,
    uri: Seq<char>,
    kid: Seq<char>,
    format: Seq<char>,
) -> Seq<char> {
    tag + ":METHOD="@ + method + ",URI=\""@ + uri + "\",KEYID=0x"@ + kid + ",KEYFORMAT=\""@ + format
        + "\",KEYFORMATVERSIONS=\"1\"\n"@
}

/// A key tag for one DRM system.
fn key_tag_text(tag: &str, method: &str, uri: &str, kid: &str, format: &str) -> (out: String)
    ensures
        out@ == key_tag(tag@, method@, uri@, kid@, format@),
{
    let mut out: String = tag.to_owned();
    out.push_str(":METHOD=");
    out.push_str(method);
    out.push_str(",URI=\"");
    out.push_str(uri);
    out.push_str("\",KEYID=0x");
    out.push_str(kid);
    out.push_str(",KEYFORMAT=\"");
    out.push_str(format);
    out.push_str("\",KEYFORMATVERSIONS=\"1\"\n");
    out
}

/// The key tag for a PSSH box, where there is one.
pub open spec fn pssh_tag(
    tag: Seq<char>,
    d: ManifestDrmInfo,
    pssh: Option<String>,
    format: Seq<char>,
) -> Seq<char> {
    match pssh {
        None => Seq::empty(),
        Some(p) => key_tag(
            tag,
            d.encryption_scheme.hls_method(),
            "data:text/plain;base64,"@ + p@,
            d.default_kid@,
            format,
        ),
    }
}

/// Appends the key tag for a PSSH box, where there is one.
fn put_pssh_tag(out: &mut String, tag: &str, d: &ManifestDrmInfo, pssh: &Option<String>, format: &str)
    ensures
        final(out)@ == old(out)@ + pssh_tag(tag@, *d, *pssh, format@),
{
    match pssh {
        None => {
            assert(out@ =~= old(out)@ + Seq::<char>::empty());
        },
        Some(p) => {
            let mut uri: String = "data:text/plain;base64,".to_owned();
            uri.push_str(p.as_str());
            out.push_str(
                key_tag_text(
                    tag,
                    d.encryption_scheme.hls_method_string(),
                    uri.as_str(),
                    d.default_kid.as_str(),
                    format,
                ).as_str(),
            );
        },
    }
}

/// The key tags of all DRM systems: FairPlay, Widevine, PlayReady and ClearKey.
pub open spec fn drm_keys(d: ManifestDrmInfo) -> Seq<char> {
    (match d.fairplay_key_uri {
        None => Seq::empty(),
        Some(uri) => key_tag(
            "#EXT-X-KEY"@,
            d.encryption_scheme.hls_method(),
            uri@,
            d.default_kid@,
            "com.apple.streamingkeydelivery"@,
        ),
    }) + pssh_tag(
        "#EXT-X-KEY"@,
        d,
        d.widevine_pssh,
        "urn:uuid:edef8ba9-79d6-4ace-a3c8-27dcd51d21ed"@,
    ) + pssh_tag(
        "#EXT-X-KEY"@,
        d,
        d.playready_pssh,
        "urn:uuid:9a04f079-9840-4286-ab92-e65be0885f95"@,
    ) + pssh_tag(
        "#EXT-X-KEY"@,
        d,
        d.clearkey_pssh,
        "urn:uuid:e2719d58-a985-b3c9-781a-b030af78d30e"@,
    )
}

/// Emit HLS DRM KEY tags for a given ManifestDrmInfo.
pub fn emit_hls_drm_keys(m3u8: &mut String, drm: &ManifestDrmInfo)
    ensures
        final(m3u8)@ == old(m3u8)@ + drm_keys(*drm),
{
    let ghost start = m3u8@;
    match &drm.fairplay_key_uri {
        None => {
            assert(m3u8@ =~= start + Seq::<char>::empty());
        },
        Some(uri) => {
            m3u8.push_str(
                key_tag_text(
                    "#EXT-X-KEY",
                    drm.encryption_scheme.hls_method_string(),
                    uri.as_str(),
                    drm.default_kid.as_str(),
                    "com.apple.streamingkeydelivery",
                ).as_str(),
            );
        },
    }
    put_pssh_tag(
        m3u8,
        "#EXT-X-KEY",
        drm,
        &drm.widevine_pssh,
        "urn:uuid:edef8ba9-79d6-4ace-a3c8-27dcd51d21ed",
    );
    put_pssh_tag(
        m3u8,
        "#EXT-X-KEY",
        drm,
        &drm.playready_pssh,
        "urn:uuid:9a04f079-9840-4286-ab92-e65be0885f95",
    );
    put_pssh_tag(
        m3u8,
        "#EXT-X-KEY",
        drm,
        &drm.clearkey_pssh,
        "urn:uuid:e2719d58-a985-b3c9-781a-b030af78d30e",
    );
    assert(m3u8@ =~= start + drm_keys(*drm));
}

/// An attribute with a decimal value, where there is one.
pub open spec fn decimal_attr(name: Seq<char>, value: Option<Decimal>) -> Seq<Seq<char>> {
    match value {
        None => Seq::empty(),
        Some(d) => seq![name + "="@ + d.fixed(5)],
    }
}

/// The attributes of the server control tag.
pub open spec fn control_attrs(c: ServerControl) -> Seq<Seq<char>> {
    (if c.can_block_reload {
        seq!["CAN-BLOCK-RELOAD=YES"@]
    } else {
        Seq::empty()
    }) + decimal_attr("PART-HOLD-BACK"@, c.part_hold_back) + decimal_attr("HOLD-BACK"@, c.hold_back)
        + decimal_attr("CAN-SKIP-UNTIL"@, c.can_skip_until)
}

/// The first `n` texts with commas between them.
pub open spec fn comma_joined(list: Seq<Seq<char>>, n: nat) -> Seq<char>
    decreases n,
{
    if n == 0 {
        Seq::empty()
    } else if n == 1 {
        list[0]
    } else {
        comma_joined(list, (n - 1) as nat) + ","@ + list[n - 1]
    }
}

/// The server control tag; none without attributes.
pub open spec fn control_tag(control: Option<ServerControl>) -> Seq<char> {
    match control {
        None => Seq::empty(),
        Some(c) => if control_attrs(c).len() == 0 {
            Seq::empty()
        } else {
            "#EXT-X-SERVER-CONTROL:"@ + comma_joined(control_attrs(c), control_attrs(c).len())
                + "\n"@
        },
    }
}

/// Adds an attribute with a decimal value, where there is one.
fn add_decimal_attr(list: &mut Vec<String>, name: &str, value: Option<Decimal>)
    ensures
        types::texts(final(list)@) == types::texts(old(list)@) + decimal_attr(name@, value),
{
    match value {
        None => {
            assert(types::texts(list@) =~= types::texts(list@) + Seq::<Seq<char>>::empty());
        },
        Some(d) => {
            let mut attr: String = name.to_owned();
            attr.push_str("=");
            d.put_fixed(&mut attr, 5);
            let ghost view = attr@;
            list.push(attr);
            assert(types::texts(list@) =~= types::texts(old(list)@) + seq![view]);
        },
    }
}

/// Appends the server control tag.
fn put_control(out: &mut String, control: &Option<ServerControl>)
    ensures
        final(out)@ == old(out)@ + control_tag(*control),
{
    let c: &ServerControl = match control {
        Some(c) => c,
        None => {
            assert(out@ =~= old(out)@ + Seq::<char>::empty());
            return ;
        },
    };
    let mut attrs: Vec<String> = Vec::new();
    assert(types::texts(attrs@) =~= Seq::empty());
    if c.can_block_reload {
        attrs.push("CAN-BLOCK-RELOAD=YES".to_owned());
        assert(types::texts(attrs@) =~= seq!["CAN-BLOCK-RELOAD=YES"@]);
    }
    add_decimal_attr(&mut attrs, "PART-HOLD-BACK", c.part_hold_back);
    add_decimal_attr(&mut attrs, "HOLD-BACK", c.hold_back);
    add_decimal_attr(&mut attrs, "CAN-SKIP-UNTIL", c.can_skip_until);
    let ghost views = types::texts(attrs@);
    assert(views == control_attrs(*c));
    assert(views.len() == attrs@.len());
    if attrs.len() == 0 {
        assert(out@ =~= old(out)@ + Seq::<char>::empty());
        return ;
    }
    out.push_str("#EXT-X-SERVER-CONTROL:");
    let ghost start = out@;
    let mut i: usize = 0;
    assert(out@ =~= start + comma_joined(views, 0));
    while i < attrs.len()
        invariant
            i <= attrs.len(),
            views == types::texts(attrs@),
            out@ == start + comma_joined(views, i as nat),
        decreases attrs.len() - i,
    {
        if i > 0 {
            out.push_str(",");
        }
        out.push_str(attrs[i].as_str());
        assert(views[i as int] == attrs@[i as int]@);
        i = i + 1;
        assert(out@ =~= start + comma_joined(views, i as nat));
    }
    out.push_str("\n");
    assert(out@ =~= old(out)@ + control_tag(*control));
}

/// Whether a playlist is a low-latency one.
pub open spec fn low_latency(s: ManifestState) -> bool {
    s.part_target_duration is Some || s.parts@.len() > 0
}

/// The version line of a media playlist.
pub open spec fn version_line(s: ManifestState) -> Seq<char> {
    if low_latency(s) {
        "#EXT-X-VERSION:9\n"@
    } else if s.container_format is Ts {
        "#EXT-X-VERSION:3\n"@
    } else {
        "#EXT-X-VERSION:7\n"@
    }
}

/// The lines of a media playlist before its type.
pub open spec fn playlist_head(s: ManifestState) -> Seq<char> {
    "#EXTM3U\n"@ + version_line(s) + "#EXT-X-TARGETDURATION:"@ + text::dec(
        s.target_duration.ceiling(),
    ) + "\n#EXT-X-MEDIA-SEQUENCE:"@ + text::dec(s.shown_sequence() as nat) + "\n"@ + control_tag(
        s.server_control,
    ) + part_target_line(s.part_target_duration)
}

/// The line with the target duration of parts.
pub open spec fn part_target_line(target: Option<Decimal>) -> Seq<char> {
    match target {
        None => Seq::empty(),
        Some(d) => "#EXT-X-PART-INF:PART-TARGET="@ + d.fixed(5) + "\n"@,
    }
}

/// Appends the line with the target duration of parts.
fn put_part_target(out: &mut String, target: Option<Decimal>)
    ensures
        final(out)@ == old(out)@ + part_target_line(target),
{
    if let Some(d) = target {
        out.push_str("#EXT-X-PART-INF:PART-TARGET=");
        d.put_fixed(out, 5);
        out.push_str("\n");
    }
    assert(out@ =~= old(out)@ + part_target_line(target));
}

/// The type line: VOD when complete, EVENT when live without a DVR window.
pub open spec fn type_line(s: ManifestState) -> Seq<char> {
    if s.phase is Complete {
        "#EXT-X-PLAYLIST-TYPE:VOD\n"@
    } else if s.phase is Live && !s.dvr_active() {
        "#EXT-X-PLAYLIST-TYPE:EVENT\n"@
    } else {
        Seq::empty()
    }
}

/// Whether the first segments are clear although there is DRM.
pub open spec fn has_clear_lead(s: ManifestState) -> bool {
    s.clear_lead_boundary is Some && s.drm_info is Some
}

/// The key tags for a set of DRM data; transport streams have one for whole segments.
pub open spec fn keys_text(s: ManifestState, d: ManifestDrmInfo) -> Seq<char> {
    if s.container_format is Ts {
        ts_key(s.base_url@ + "key"@)
    } else {
        drm_keys(d)
    }
}

/// The key tags before the first segment.
pub open spec fn first_keys(s: ManifestState) -> Seq<char> {
    if has_clear_lead(s) {
        "#EXT-X-KEY:METHOD=NONE\n"@
    } else {
        match s.drm_info {
            Some(d) => keys_text(s, d),
            None => Seq::empty(),
        }
    }
}

/// The init segment line.
pub open spec fn map_line(s: ManifestState) -> Seq<char> {
    match s.init_segment {
        Some(init) => "#EXT-X-MAP:URI=\""@ + init.uri@ + "\"\n"@,
        None => Seq::empty(),
    }
}

/// How many thousandths a time is behind its last whole second, as far as 32 bits count.
pub open spec fn millis_of(t: Decimal) -> nat {
    let rest = t.nanos - t.in_ticks(1) * 1_000_000_000;
    if rest <= 0 {
        0
    } else if rest / 1_000_000 > u32::MAX {
        u32::MAX as nat
    } else {
        (rest / 1_000_000) as nat
    }
}

/// A time as a date, counted from the epoch.
pub open spec fn date_text(t: Decimal) -> Seq<char> {
    let secs = t.in_ticks(1);
    let day = secs % 86400;
    "1970-01-"@ + text::dec_padded(secs / 86400 + 1, 2) + "T"@ + text::dec_padded(day / 3600, 2)
        + ":"@ + text::dec_padded((day / 60) % 60, 2) + ":"@ + text::dec_padded(day % 60, 2) + "."@
        + text::dec_padded(millis_of(t), 3) + "Z"@
}

/// The line of an ad break.
pub open spec fn break_line(b: AdBreakInfo) -> Seq<char> {
    "#EXT-X-DATERANGE:ID=\"splice-"@ + text::dec(b.id as nat) + "\",START-DATE=\""@ + date_text(
        b.presentation_time,
    ) + "\""@ + (match b.duration {
        Some(d) => ",PLANNED-DURATION="@ + d.fixed(3),
        None => Seq::empty(),
    }) + (match b.scte35_cmd {
        Some(cmd) => ",SCTE35-CMD=0x"@ + hex_of_base64(cmd@),
        None => Seq::empty(),
    }) + "\n"@
}

/// A time as a date.
fn date_string(t: Decimal) -> (out: String)
    ensures
        out@ == date_text(t),
{
    let secs: u64 = t.ticks(1);
    let day: u64 = secs % 86400;
    let mut out: String = "1970-01-".to_owned();
    text::put_dec_padded(&mut out, secs / 86400 + 1, 2);
    out.push_str("T");
    text::put_dec_padded(&mut out, day / 3600, 2);
    out.push_str(":");
    text::put_dec_padded(&mut out, (day / 60) % 60, 2);
    out.push_str(":");
    text::put_dec_padded(&mut out, day % 60, 2);
    out.push_str(".");
    let rest: i128 = t.nanos - secs as i128 * 1_000_000_000;
    let millis: u64 = if rest <= 0 {
        0
    } else if rest / 1_000_000 > u32::MAX as i128 {
        u32::MAX as u64
    } else {
        (rest / 1_000_000) as u64
    };
    text::put_dec_padded(&mut out, millis, 3);
    out.push_str("Z");
    out
}

/// The line of an ad break.
fn break_text(b: &AdBreakInfo) -> (out: String)
    ensures
        out@ == break_line(*b),
{
    let mut out: String = "#EXT-X-DATERANGE:ID=\"splice-".to_owned();
    text::put_dec(&mut out, b.id as u64);
    out.push_str("\",START-DATE=\"");
    out.push_str(date_string(b.presentation_time).as_str());
    out.push_str("\"");
    match b.duration {
        Some(d) => {
            let mut attr: String = ",PLANNED-DURATION=".to_owned();
            d.put_fixed(&mut attr, 3);
            out.push_str(attr.as_str());
        },
        None => {
            assert(out@ =~= out@ + Seq::<char>::empty());
        },
    }
    match &b.scte35_cmd {
        Some(cmd) => {
            let mut attr: String = ",SCTE35-CMD=0x".to_owned();
            attr.push_str(hex_encode_base64(cmd.as_str()).as_str());
            out.push_str(attr.as_str());
        },
        None => {
            assert(out@ =~= out@ + Seq::<char>::empty());
        },
    }
    out.push_str("\n");
    out
}

/// The lines of those of the first `n` ad breaks that belong to a segment.
pub open spec fn break_lines(list: Seq<AdBreakInfo>, number: u32, n: nat) -> Seq<char>
    decreases n,
{
    if n == 0 {
        Seq::empty()
    } else if list[n - 1].segment_number == number {
        break_lines(list, number, (n - 1) as nat) + break_line(list[n - 1])
    } else {
        break_lines(list, number, (n - 1) as nat)
    }
}

/// The line of a part.
pub open spec fn part_line(p: PartInfo) -> Seq<char> {
    "#EXT-X-PART:DURATION="@ + p.duration.fixed(5) + ",URI=\""@ + p.uri@ + "\""@ + (
    if p.independent {
        ",INDEPENDENT=YES"@
    } else {
        Seq::empty()
    }) + "\n"@
}

/// The lines of those of the first `n` parts that belong to a segment.
pub open spec fn part_lines(list: Seq<PartInfo>, number: u32, n: nat) -> Seq<char>
    decreases n,
{
    if n == 0 {
        Seq::empty()
    } else if list[n - 1].segment_number == number {
        part_lines(list, number, (n - 1) as nat) + part_line(list[n - 1])
    } else {
        part_lines(list, number, (n - 1) as nat)
    }
}

/// Appends the lines of the ad breaks that belong to a segment.
fn put_breaks(out: &mut String, list: &Vec<&AdBreakInfo>, number: u32)
    ensures
        final(out)@ == old(out)@ + break_lines(types::targets(list@), number, list@.len()),
{
    let ghost all = types::targets(list@);
    let mut i: usize = 0;
    assert(out@ =~= old(out)@ + break_lines(all, number, 0));
    while i < list.len()
        invariant
            i <= list.len(),
            all == types::targets(list@),
            out@ == old(out)@ + break_lines(all, number, i as nat),
        decreases list.len() - i,
    {
        assert(all[i as int] == *list@[i as int]);
        if list[i].segment_number == number {
            out.push_str(break_text(list[i]).as_str());
        }
        i = i + 1;
        assert(out@ =~= old(out)@ + break_lines(all, number, i as nat));
    }
}

/// Appends the line of a part.
fn put_part(out: &mut String, p: &PartInfo)
    ensures
        final(out)@ == old(out)@ + part_line(*p),
{
    out.push_str("#EXT-X-PART:DURATION=");
    p.duration.put_fixed(out, 5);
    out.push_str(",URI=\"");
    out.push_str(p.uri.as_str());
    out.push_str("\"");
    if p.independent {
        out.push_str(",INDEPENDENT=YES");
    }
    out.push_str("\n");
    assert(out@ =~= old(out)@ + part_line(*p));
}

/// Appends the lines of the parts that belong to a segment.
fn put_parts(out: &mut String, list: &Vec<&PartInfo>, number: u32)
    ensures
        final(out)@ == old(out)@ + part_lines(types::targets(list@), number, list@.len()),
{
    let ghost all = types::targets(list@);
    let mut i: usize = 0;
    assert(out@ =~= old(out)@ + part_lines(all, number, 0));
    while i < list.len()
        invariant
            i <= list.len(),
            all == types::targets(list@),
            out@ == old(out)@ + part_lines(all, number, i as nat),
        decreases list.len() - i,
    {
        assert(all[i as int] == *list@[i as int]);
        if list[i].segment_number == number {
            put_part(out, list[i]);
        }
        i = i + 1;
        assert(out@ =~= old(out)@ + part_lines(all, number, i as nat));
    }
}

/// Whether a segment starts a new key period.
pub open spec fn rotates(s: ManifestState, seg: SegmentInfo, last: Option<u32>) -> bool {
    seg.key_period is Some && last != seg.key_period && s.rotation_drm_info@.len() > 0
}

/// The key period after the first `n` segments.
pub open spec fn last_period(s: ManifestState, shown: Seq<SegmentInfo>, n: nat) -> Option<u32>
    decreases n,
{
    if n == 0 {
        None
    } else {
        let before = last_period(s, shown, (n - 1) as nat);
        if rotates(s, shown[n - 1], before) {
            shown[n - 1].key_period
        } else {
            before
        }
    }
}

/// The key tags where a clear lead ends.
pub open spec fn lead_end_keys(s: ManifestState, seg: SegmentInfo) -> Seq<char> {
    if has_clear_lead(s) && s.clear_lead_boundary == Some(seg.number) {
        keys_text(s, s.drm_info->0)
    } else {
        Seq::empty()
    }
}

/// The key tags where a new key period starts.
pub open spec fn rotation_keys(s: ManifestState, seg: SegmentInfo, last: Option<u32>) -> Seq<char> {
    if rotates(s, seg, last) {
        keys_text(
            s,
            s.rotation_drm_info@[seg.key_period->0 as int % s.rotation_drm_info@.len() as int],
        )
    } else {
        Seq::empty()
    }
}

/// The lines of the parts of a segment, in a low-latency playlist.
pub open spec fn segment_parts(s: ManifestState, seg: SegmentInfo) -> Seq<char> {
    let parts = s.shown_items(s.parts@);
    if low_latency(s) {
        part_lines(parts, seg.number, parts.len())
    } else {
        Seq::empty()
    }
}

/// The lines of the ad breaks of a segment.
pub open spec fn segment_breaks(s: ManifestState, seg: SegmentInfo) -> Seq<char> {
    let breaks = s.shown_items(s.ad_breaks@);
    break_lines(breaks, seg.number, breaks.len())
}

/// The lines of a segment: keys where they change, ad breaks, parts, duration and URI.
pub open spec fn segment_lines(s: ManifestState, seg: SegmentInfo, last: Option<u32>) -> Seq<char> {
    lead_end_keys(s, seg) + rotation_keys(s, seg, last) + segment_breaks(s, seg) + segment_parts(
        s,
        seg,
    ) + "#EXTINF:"@ + seg.duration.fixed(6) + ",\n"@ + seg.uri@ + "\n"@
}

/// The lines of the first `n` segments.
pub open spec fn all_segment_lines(s: ManifestState, shown: Seq<SegmentInfo>, n: nat) -> Seq<char>
    decreases n,
{
    if n == 0 {
        Seq::empty()
    } else {
        all_segment_lines(s, shown, (n - 1) as nat) + segment_lines(
            s,
            shown[n - 1],
            last_period(s, shown, (n - 1) as nat),
        )
    }
}

/// The line that ends a complete playlist.
pub open spec fn end_line(s: ManifestState) -> Seq<char> {
    if s.phase is Complete {
        "#EXT-X-ENDLIST\n"@
    } else {
        Seq::empty()
    }
}

/// The media playlist of a manifest. Before the first segment it is the head alone.
pub open spec fn media_playlist(s: ManifestState) -> Seq<char> {
    if s.phase is AwaitingFirstSegment {
        playlist_head(s)
    } else {
        playlist_head(s) + type_line(s) + "#EXT-X-INDEPENDENT-SEGMENTS\n"@ + first_keys(s)
            + map_line(s) + all_segment_lines(s, s.shown_segments(), s.shown_segments().len())
            + end_line(s)
    }
}

/// Whether segments are transport stream segments.
fn is_ts(s: &ManifestState) -> (yes: bool)
    ensures
        yes == (s.container_format is Ts),
{
    !s.container_format.is_isobmff()
}

/// Appends the key tags for a set of DRM data.
fn put_keys(out: &mut String, s: &ManifestState, d: &ManifestDrmInfo)
    ensures
        final(out)@ == old(out)@ + keys_text(*s, *d),
{
    if is_ts(s) {
        let mut key_uri: String = s.base_url.clone();
        key_uri.push_str("key");
        emit_hls_ts_key(out, key_uri.as_str());
    } else {
        emit_hls_drm_keys(out, d);
    }
}

/// The lines of a media playlist before its type.
fn head_text(state: &ManifestState) -> (out: String)
    ensures
        out@ == playlist_head(*state),
{
    let ll: bool = state.part_target_duration.is_some() || state.parts.len() > 0;
    let mut out: String = "#EXTM3U\n".to_owned();
    if ll {
        out.push_str("#EXT-X-VERSION:9\n");
    } else if is_ts(state) {
        out.push_str("#EXT-X-VERSION:3\n");
    } else {
        out.push_str("#EXT-X-VERSION:7\n");
    }
    out.push_str("#EXT-X-TARGETDURATION:");
    text::put_dec(&mut out, state.target_duration.ceil());
    out.push_str("\n#EXT-X-MEDIA-SEQUENCE:");
    text::put_dec(&mut out, state.windowed_media_sequence() as u64);
    out.push_str("\n");
    put_control(&mut out, &state.server_control);
    put_part_target(&mut out, state.part_target_duration);
    out
}

/// Appends the type line.
fn put_type(out: &mut String, state: &ManifestState)
    ensures
        final(out)@ == old(out)@ + type_line(*state),
{
    match state.phase {
        ManifestPhase::Complete => {
            out.push_str("#EXT-X-PLAYLIST-TYPE:VOD\n");
        },
        ManifestPhase::Live => {
            if !state.is_dvr_active() {
                out.push_str("#EXT-X-PLAYLIST-TYPE:EVENT\n");
            }
        },
        ManifestPhase::AwaitingFirstSegment => {},
    }
    assert(out@ =~= old(out)@ + type_line(*state));
}

/// Appends the init segment line.
fn put_map(out: &mut String, state: &ManifestState)
    ensures
        final(out)@ == old(out)@ + map_line(*state),
{
    if let Some(init) = &state.init_segment {
        out.push_str("#EXT-X-MAP:URI=\"");
        out.push_str(init.uri.as_str());
        out.push_str("\"\n");
    }
    assert(out@ =~= old(out)@ + map_line(*state));
}

/// Appends the key tags where a clear lead ends.
fn put_lead_end(out: &mut String, state: &ManifestState, segment: &SegmentInfo)
    ensures
        final(out)@ == old(out)@ + lead_end_keys(*state, *segment),
{
    let clear_ends: bool = match state.clear_lead_boundary {
        Some(boundary) => boundary == segment.number,
        None => false,
    };
    if clear_ends {
        if let Some(d) = &state.drm_info {
            put_keys(out, state, d);
            return ;
        }
    }
    assert(out@ =~= old(out)@ + Seq::<char>::empty());
}

/// Whether a segment starts a new key period.
fn starts_period(state: &ManifestState, segment: &SegmentInfo, last: Option<u32>) -> (yes: bool)
    ensures
        yes == rotates(*state, *segment, last),
{
    match segment.key_period {
        Some(period) => {
            let changed: bool = match last {
                Some(known) => known != period,
                None => true,
            };
            changed && state.rotation_drm_info.len() > 0
        },
        None => false,
    }
}

/// Appends the key tags where a new key period starts.
fn put_rotation(out: &mut String, state: &ManifestState, segment: &SegmentInfo, last: Option<u32>)
    ensures
        final(out)@ == old(out)@ + rotation_keys(*state, *segment, last),
{
    if starts_period(state, segment, last) {
        if let Some(period) = segment.key_period {
            let index: usize = period as usize % state.rotation_drm_info.len();
            put_keys(out, state, &state.rotation_drm_info[index]);
        }
    } else {
        assert(out@ =~= old(out)@ + Seq::<char>::empty());
    }
}

/// The lines of a segment.
fn segment_text(
    state: &ManifestState,
    segment: &SegmentInfo,
    last: Option<u32>,
    breaks: &Vec<&AdBreakInfo>,
    parts: &Vec<&PartInfo>,
) -> (out: String)
    requires
        types::targets(breaks@) == state.shown_items(state.ad_breaks@),
        types::targets(parts@) == state.shown_items(state.parts@),
    ensures
        out@ == segment_lines(*state, *segment, last),
{
    assert(types::targets(breaks@).len() == breaks@.len());
    assert(types::targets(parts@).len() == parts@.len());
    let mut out: String = String::new();
    put_lead_end(&mut out, state, segment);
    assert(out@ =~= lead_end_keys(*state, *segment));
    put_rotation(&mut out, state, segment, last);
    put_breaks(&mut out, breaks, segment.number);
    if state.part_target_duration.is_some() || state.parts.len() > 0 {
        put_parts(&mut out, parts, segment.number);
    } else {
        assert(out@ =~= out@ + Seq::<char>::empty());
    }
    out.push_str("#EXTINF:");
    segment.duration.put_fixed(&mut out, 6);
    out.push_str(",\n");
    out.push_str(segment.uri.as_str());
    out.push_str("\n");
    out
}

/// Render an HLS M3U8 manifest from the current state.
///
/// - During `Live` phase: produces a live playlist (no `#EXT-X-ENDLIST`)
/// - During `Complete` phase: produces a VOD playlist (with `#EXT-X-ENDLIST`)
pub fn render(state: &ManifestState) -> (r: Result<String, EdgepackError>)
    ensures
        r matches Ok(t) && t@ == media_playlist(*state),
{
    let mut m3u8: String = head_text(state);
    match state.phase {
        ManifestPhase::AwaitingFirstSegment => return Ok(m3u8),
        _ => {},
    }
    put_type(&mut m3u8, state);
    m3u8.push_str("#EXT-X-INDEPENDENT-SEGMENTS\n");
    let ghost before_keys = m3u8@;
    match &state.drm_info {
        Some(d) => {
            if state.clear_lead_boundary.is_some() {
                m3u8.push_str("#EXT-X-KEY:METHOD=NONE\n");
            } else {
                put_keys(&mut m3u8, state, d);
            }
        },
        None => {
            assert(m3u8@ =~= before_keys + Seq::<char>::empty());
        },
    }
    put_map(&mut m3u8, state);
    let ghost start = m3u8@;
    let shown: &[SegmentInfo] = state.windowed_segments();
    let breaks: Vec<&AdBreakInfo> = state.windowed_ad_breaks();
    let parts: Vec<&PartInfo> = state.windowed_parts();
    let mut last: Option<u32> = None;
    let mut i: usize = 0;
    assert(m3u8@ =~= start + all_segment_lines(*state, shown@, 0));
    while i < shown.len()
        invariant
            i <= shown.len(),
            types::targets(breaks@) == state.shown_items(state.ad_breaks@),
            types::targets(parts@) == state.shown_items(state.parts@),
            last == last_period(*state, shown@, i as nat),
            m3u8@ == start + all_segment_lines(*state, shown@, i as nat),
        decreases shown.len() - i,
    {
        m3u8.push_str(segment_text(state, &shown[i], last, &breaks, &parts).as_str());
        if starts_period(state, &shown[i], last) {
            last = shown[i].key_period;
        }
        i = i + 1;
        assert(m3u8@ =~= start + all_segment_lines(*state, shown@, i as nat));
    }
    if state.is_complete() {
        m3u8.push_str("#EXT-X-ENDLIST\n");
    }
    assert(m3u8@ =~= media_playlist(*state));
    Ok(m3u8)
}

/// The longest of the first `n` I-frame durations, at least zero.
pub open spec fn longest(list: Seq<IFrameSegmentInfo>, n: nat) -> Decimal
    decreases n,
{
    if n == 0 {
        Decimal { nanos: 0 }
    } else {
        let before = longest(list, (n - 1) as nat);
        if list[n - 1].duration.nanos > before.nanos {
            list[n - 1].duration
        } else {
            before
        }
    }
}

/// The lines of the first `n` I-frames.
pub open spec fn iframe_lines(list: Seq<IFrameSegmentInfo>, n: nat) -> Seq<char>
    decreases n,
{
    if n == 0 {
        Seq::empty()
    } else {
        let f = list[n - 1];
        iframe_lines(list, (n - 1) as nat) + "#EXTINF:"@ + f.duration.fixed(6)
            + ",\n#EXT-X-BYTERANGE:"@ + text::dec(f.byte_length as nat) + "@"@ + text::dec(
            f.byte_offset as nat,
        ) + "\n"@ + f.segment_uri@ + "\n"@
    }
}

/// The key tags of an I-frame playlist.
pub open spec fn iframe_keys(s: ManifestState) -> Seq<char> {
    match s.drm_info {
        Some(d) => drm_keys(d),
        None => Seq::empty(),
    }
}

/// The I-frame playlist of a manifest; none where it is not enabled, there are no I-frames
/// or no segment was processed yet.
pub open spec fn iframe_playlist(s: ManifestState) -> Option<Seq<char>> {
    let frames = s.shown_items(s.iframe_segments@);
    if !s.enable_iframe_playlist || frames.len() == 0 || s.phase is AwaitingFirstSegment {
        None
    } else {
        Some(
            "#EXTM3U\n#EXT-X-VERSION:4\n#EXT-X-TARGETDURATION:"@ + text::dec(
                longest(frames, frames.len()).ceiling(),
            ) + "\n#EXT-X-MEDIA-SEQUENCE:"@ + text::dec(s.shown_sequence() as nat)
                + "\n#EXT-X-I-FRAMES-ONLY\n"@ + type_line(s) + iframe_keys(s) + map_line(s)
                + iframe_lines(frames, frames.len()) + end_line(s),
        )
    }
}

/// The longest I-frame duration, at least zero.
fn longest_duration(list: &Vec<&IFrameSegmentInfo>) -> (d: Decimal)
    ensures
        d == longest(types::targets(list@), list@.len()),
{
    let ghost all = types::targets(list@);
    let mut d: Decimal = Decimal { nanos: 0 };
    let mut i: usize = 0;
    while i < list.len()
        invariant
            i <= list.len(),
            all == types::targets(list@),
            d == longest(all, i as nat),
        decreases list.len() - i,
    {
        assert(all[i as int] == *list@[i as int]);
        if list[i].duration.nanos > d.nanos {
            d = list[i].duration;
        }
        i = i + 1;
    }
    d
}

/// The lines of a list of I-frames.
fn iframe_text(list: &Vec<&IFrameSegmentInfo>) -> (out: String)
    ensures
        out@ == iframe_lines(types::targets(list@), list@.len()),
{
    let ghost all = types::targets(list@);
    let mut out: String = String::new();
    let mut i: usize = 0;
    assert(out@ =~= Seq::empty());
    while i < list.len()
        invariant
            i <= list.len(),
            all == types::targets(list@),
            out@ == iframe_lines(all, i as nat),
        decreases list.len() - i,
    {
        assert(all[i as int] == *list@[i as int]);
        out.push_str("#EXTINF:");
        list[i].duration.put_fixed(&mut out, 6);
        out.push_str(",\n#EXT-X-BYTERANGE:");
        text::put_dec(&mut out, list[i].byte_length);
        out.push_str("@");
        text::put_dec(&mut out, list[i].byte_offset);
        out.push_str("\n");
        out.push_str(list[i].segment_uri.as_str());
        out.push_str("\n");
        i = i + 1;
    }
    out
}

/// Render an HLS I-frame-only playlist from the manifest state.
///
/// Returns `Ok(Some(playlist))` if I-frame data is available and enabled,
/// `Ok(None)` if I-frame playlists are disabled or empty.
///
/// Uses `#EXT-X-I-FRAMES-ONLY` with `#EXT-X-BYTERANGE` pointing into regular segments.
pub fn render_iframe_playlist(state: &ManifestState) -> (r: Result<Option<String>, EdgepackError>)
    ensures
        r matches Ok(t) && types::opt_text(t) == iframe_playlist(*state),
{
    let iframes: Vec<&IFrameSegmentInfo> = state.windowed_iframe_segments();
    assert(types::targets(iframes@).len() == iframes@.len());
    if !state.enable_iframe_playlist || iframes.len() == 0 {
        return Ok(None);
    }
    match state.phase {
        ManifestPhase::AwaitingFirstSegment => return Ok(None),
        _ => {},
    }
    let mut m3u8: String = "#EXTM3U\n#EXT-X-VERSION:4\n#EXT-X-TARGETDURATION:".to_owned();
    text::put_dec(&mut m3u8, longest_duration(&iframes).ceil());
    m3u8.push_str("\n#EXT-X-MEDIA-SEQUENCE:");
    text::put_dec(&mut m3u8, state.windowed_media_sequence() as u64);
    m3u8.push_str("\n#EXT-X-I-FRAMES-ONLY\n");
    put_type(&mut m3u8, state);
    match &state.drm_info {
        Some(d) => {
            emit_hls_drm_keys(&mut m3u8, d);
        },
        None => {
            assert(m3u8@ =~= m3u8@ + Seq::<char>::empty());
        },
    }
    put_map(&mut m3u8, state);
    m3u8.push_str(iframe_text(&iframes).as_str());
    if state.is_complete() {
        m3u8.push_str("#EXT-X-ENDLIST\n");
    } else {
        assert(m3u8@ =~= m3u8@ + Seq::<char>::empty());
    }
    Ok(Some(m3u8))
}

/// A text, where there is one, between two others.
pub open spec fn around(head: Seq<char>, t: Option<String>, tail: Seq<char>) -> Seq<char> {
    match t {
        Some(s) => head + s@ + tail,
        None => Seq::empty(),
    }
}

/// Appends a text, where there is one, between two others.
fn put_around(out: &mut String, head: &str, t: &Option<String>, tail: &str)
    ensures
        final(out)@ == old(out)@ + around(head@, *t, tail@),
{
    if let Some(s) = t {
        out.push_str(head);
        out.push_str(s.as_str());
        out.push_str(tail);
    }
    assert(out@ =~= old(out)@ + around(head@, *t, tail@));
}

/// The content steering line of a master playlist.
pub open spec fn steering_line(s: ManifestState) -> Seq<char> {
    match s.content_steering {
        None => Seq::empty(),
        Some(cs) => "#EXT-X-CONTENT-STEERING:SERVER-URI=\""@ + cs.server_uri@ + "\""@ + around(
            ",PATHWAY-ID=\""@,
            cs.default_pathway_id,
            "\""@,
        ) + "\n"@,
    }
}

/// Appends the content steering line.
fn put_steering(out: &mut String, s: &ManifestState)
    ensures
        final(out)@ == old(out)@ + steering_line(*s),
{
    if let Some(cs) = &s.content_steering {
        out.push_str("#EXT-X-CONTENT-STEERING:SERVER-URI=\"");
        out.push_str(cs.server_uri.as_str());
        out.push_str("\"");
        put_around(out, ",PATHWAY-ID=\"", &cs.default_pathway_id, "\"");
        out.push_str("\n");
    }
    assert(out@ =~= old(out)@ + steering_line(*s));
}

/// The session key line of a master playlist: Widevine.
pub open spec fn session_key(s: ManifestState) -> Seq<char> {
    match s.drm_info {
        None => Seq::empty(),
        Some(d) => pssh_tag(
            "#EXT-X-SESSION-KEY"@,
            d,
            d.widevine_pssh,
            "urn:uuid:edef8ba9-79d6-4ace-a3c8-27dcd51d21ed"@,
        ),
    }
}

/// Whether one of the variants is of a kind.
pub open spec fn has_kind(variants: Seq<VariantInfo>, kind: TrackMediaType) -> bool {
    exists|i: int| 0 <= i < variants.len() && (#[trigger] variants[i]).track_type == kind
}

/// Whether one of the variants is of a kind.
#[verifier::loop_isolation(false)]
fn any_of_kind(variants: &Vec<VariantInfo>, kind: TrackMediaType) -> (yes: bool)
    ensures
        yes == has_kind(variants@, kind),
{
    let mut i: usize = 0;
    while i < variants.len()
        invariant
            i <= variants.len(),
            forall|k: int| 0 <= k < i ==> (#[trigger] variants@[k]).track_type != kind,
        decreases variants.len() - i,
    {
        if variants[i].track_type == kind {
            return true;
        }
        i = i + 1;
    }
    false
}

/// The playlist URI of variant `i`.
pub open spec fn variant_uri(uris: Seq<String>, i: int) -> Seq<char> {
    if i < uris.len() {
        uris[i]@
    } else {
        "variant.m3u8"@
    }
}

/// The playlist URI of variant `i`.
fn uri_of_variant(uris: &[String], i: usize) -> (uri: String)
    ensures
        uri@ == variant_uri(uris@, i as int),
{
    if i < uris.len() {
        uris[i].clone()
    } else {
        "variant.m3u8".to_owned()
    }
}

/// The rendition line of an audio variant.
pub open spec fn audio_line(v: VariantInfo, uri: Seq<char>) -> Seq<char> {
    "#EXT-X-MEDIA:TYPE=AUDIO,GROUP-ID=\"audio\""@ + around(",LANGUAGE=\""@, v.language, "\""@)
        + ",NAME=\""@ + v.id@ + "\",DEFAULT=YES,AUTOSELECT=YES,URI=\""@ + uri + "\"\n"@
}

/// The lines of the audio renditions among the first `n` variants.
pub open spec fn audio_lines(variants: Seq<VariantInfo>, uris: Seq<String>, n: nat) -> Seq<char>
    decreases n,
{
    if n == 0 {
        Seq::empty()
    } else if variants[n - 1].track_type is Audio {
        audio_lines(variants, uris, (n - 1) as nat) + audio_line(
            variants[n - 1],
            variant_uri(uris, n - 1),
        )
    } else {
        audio_lines(variants, uris, (n - 1) as nat)
    }
}

/// The rendition line of an audio variant.
fn audio_text(v: &VariantInfo, uri: &str) -> (out: String)
    ensures
        out@ == audio_line(*v, uri@),
{
    let mut out: String = "#EXT-X-MEDIA:TYPE=AUDIO,GROUP-ID=\"audio\"".to_owned();
    put_around(&mut out, ",LANGUAGE=\"", &v.language, "\"");
    out.push_str(",NAME=\"");
    out.push_str(v.id.as_str());
    out.push_str("\",DEFAULT=YES,AUTOSELECT=YES,URI=\"");
    out.push_str(uri);
    out.push_str("\"\n");
    out
}

/// The language of a subtitle variant.
pub open spec fn language_of(v: VariantInfo) -> Seq<char> {
    match v.language {
        Some(l) => l@,
        None => "und"@,
    }
}

/// The rendition line of a subtitle variant. Without an identifier it is named by its
/// language.
pub open spec fn subtitle_line(v: VariantInfo, uri: Seq<char>) -> Seq<char> {
    "#EXT-X-MEDIA:TYPE=SUBTITLES,GROUP-ID=\"subs\",LANGUAGE=\""@ + language_of(v) + "\",NAME=\""@ + (
    if v.id@.len() == 0 {
        language_of(v)
    } else {
        v.id@
    }) + "\",DEFAULT=NO,AUTOSELECT=YES,URI=\""@ + uri + "\"\n"@
}

/// The lines of the subtitle renditions among the first `n` variants.
pub open spec fn subtitle_lines(variants: Seq<VariantInfo>, uris: Seq<String>, n: nat) -> Seq<char>
    decreases n,
{
    if n == 0 {
        Seq::empty()
    } else if variants[n - 1].track_type is Subtitle {
        subtitle_lines(variants, uris, (n - 1) as nat) + subtitle_line(
            variants[n - 1],
            variant_uri(uris, n - 1),
        )
    } else {
        subtitle_lines(variants, uris, (n - 1) as nat)
    }
}

/// The rendition line of a subtitle variant.
fn subtitle_text(v: &VariantInfo, uri: &str) -> (out: String)
    ensures
        out@ == subtitle_line(*v, uri@),
{
    let lang: String = match &v.language {
        Some(l) => l.clone(),
        None => "und".to_owned(),
    };
    let named: bool = crate::chars::chars_of(v.id.as_str()).len() > 0;
    let mut out: String =
        "#EXT-X-MEDIA:TYPE=SUBTITLES,GROUP-ID=\"subs\",LANGUAGE=\"".to_owned();
    out.push_str(lang.as_str());
    out.push_str("\",NAME=\"");
    if named {
        out.push_str(v.id.as_str());
    } else {
        out.push_str(lang.as_str());
    }
    out.push_str("\",DEFAULT=NO,AUTOSELECT=YES,URI=\"");
    out.push_str(uri);
    out.push_str("\"\n");
    out
}

/// The lines of the first `n` closed caption channels.
pub open spec fn caption_lines(list: Seq<CeaCaptionInfo>, n: nat) -> Seq<char>
    decreases n,
{
    if n == 0 {
        Seq::empty()
    } else {
        let c = list[n - 1];
        caption_lines(list, (n - 1) as nat)
            + "#EXT-X-MEDIA:TYPE=CLOSED-CAPTIONS,GROUP-ID=\"cc\",LANGUAGE=\""@ + c.language@
            + "\",NAME=\""@ + c.service_name@ + "\",INSTREAM-ID=\""@ + c.service_name@
            + "\",DEFAULT=NO,AUTOSELECT=YES\n"@
    }
}

/// The lines of the closed caption channels.
fn caption_text(list: &Vec<CeaCaptionInfo>) -> (out: String)
    ensures
        out@ == caption_lines(list@, list@.len()),
{
    let mut out: String = String::new();
    let mut i: usize = 0;
    assert(out@ =~= Seq::empty());
    while i < list.len()
        invariant
            i <= list.len(),
            out@ == caption_lines(list@, i as nat),
        decreases list.len() - i,
    {
        out.push_str("#EXT-X-MEDIA:TYPE=CLOSED-CAPTIONS,GROUP-ID=\"cc\",LANGUAGE=\"");
        out.push_str(list[i].language.as_str());
        out.push_str("\",NAME=\"");
        out.push_str(list[i].service_name.as_str());
        out.push_str("\",INSTREAM-ID=\"");
        out.push_str(list[i].service_name.as_str());
        out.push_str("\",DEFAULT=NO,AUTOSELECT=YES\n");
        i = i + 1;
    }
    out
}

/// The resolution attribute.
pub open spec fn resolution_attr(size: Option<(u32, u32)>) -> Seq<char> {
    match size {
        Some((w, h)) => ",RESOLUTION="@ + text::dec(w as nat) + "x"@ + text::dec(h as nat),
        None => Seq::empty(),
    }
}

/// Appends the resolution attribute.
fn put_resolution(out: &mut String, size: Option<(u32, u32)>)
    ensures
        final(out)@ == old(out)@ + resolution_attr(size),
{
    if let Some((w, h)) = size {
        out.push_str(",RESOLUTION=");
        text::put_dec(out, w as u64);
        out.push_str("x");
        text::put_dec(out, h as u64);
    }
    assert(out@ =~= old(out)@ + resolution_attr(size));
}

/// The frame rate attribute.
pub open spec fn frame_rate_attr(rate: Option<Decimal>) -> Seq<char> {
    match rate {
        Some(d) => ",FRAME-RATE="@ + d.fixed(3),
        None => Seq::empty(),
    }
}

/// Appends the frame rate attribute.
fn put_frame_rate(out: &mut String, rate: Option<Decimal>)
    ensures
        final(out)@ == old(out)@ + frame_rate_attr(rate),
{
    if let Some(d) = rate {
        out.push_str(",FRAME-RATE=");
        d.put_fixed(out, 3);
    }
    assert(out@ =~= old(out)@ + frame_rate_attr(rate));
}

/// `text` where `shown`, else nothing.
pub open spec fn when(shown: bool, text: Seq<char>) -> Seq<char> {
    if shown {
        text
    } else {
        Seq::empty()
    }
}

/// Appends `text` where `shown`.
fn put_when(out: &mut String, shown: bool, text: &str)
    ensures
        final(out)@ == old(out)@ + when(shown, text@),
{
    if shown {
        out.push_str(text);
    } else {
        assert(out@ =~= old(out)@ + Seq::<char>::empty());
    }
}

/// The URI of video variant `i`: the given one, else one made from its path prefix.
pub open spec fn stream_uri(v: VariantInfo, uris: Seq<String>, i: int) -> Seq<char> {
    if i >= uris.len() && v.segment_path_prefix is Some {
        v.segment_path_prefix->0@ + "manifest"@
    } else {
        variant_uri(uris, i)
    }
}

/// The URI of video variant `i`.
fn uri_of_stream(v: &VariantInfo, uris: &[String], i: usize) -> (uri: String)
    ensures
        uri@ == stream_uri(*v, uris@, i as int),
{
    if i >= uris.len() {
        if let Some(prefix) = &v.segment_path_prefix {
            let mut uri: String = prefix.clone();
            uri.push_str("manifest");
            return uri;
        }
    }
    uri_of_variant(uris, i)
}

/// The stream line of a video variant, with its URI.
pub open spec fn stream_lines(s: ManifestState, v: VariantInfo, uri: Seq<char>) -> Seq<char> {
    "#EXT-X-STREAM-INF:BANDWIDTH="@ + text::dec(v.bandwidth as nat) + ",CODECS=\""@ + v.codecs@
        + "\""@ + resolution_attr(v.resolution) + frame_rate_attr(v.frame_rate) + when(
        has_kind(s.variants@, TrackMediaType::Audio),
        ",AUDIO=\"audio\""@,
    ) + when(has_kind(s.variants@, TrackMediaType::Subtitle), ",SUBTITLES=\"subs\""@) + when(
        s.cea_captions@.len() > 0,
        ",CLOSED-CAPTIONS=\"cc\""@,
    ) + "\n"@ + uri + "\n"@
}

/// The lines of the video streams among the first `n` variants.
pub open spec fn video_lines(s: ManifestState, uris: Seq<String>, n: nat) -> Seq<char>
    decreases n,
{
    if n == 0 {
        Seq::empty()
    } else if s.variants@[n - 1].track_type is Video {
        video_lines(s, uris, (n - 1) as nat) + stream_lines(
            s,
            s.variants@[n - 1],
            stream_uri(s.variants@[n - 1], uris, n - 1),
        )
    } else {
        video_lines(s, uris, (n - 1) as nat)
    }
}

/// The stream line of a video variant, with its URI.
fn stream_text(s: &ManifestState, v: &VariantInfo, uri: &str) -> (out: String)
    ensures
        out@ == stream_lines(*s, *v, uri@),
{
    let mut out: String = "#EXT-X-STREAM-INF:BANDWIDTH=".to_owned();
    text::put_dec(&mut out, v.bandwidth);
    out.push_str(",CODECS=\"");
    out.push_str(v.codecs.as_str());
    out.push_str("\"");
    put_resolution(&mut out, v.resolution);
    put_frame_rate(&mut out, v.frame_rate);
    put_when(
        &mut out,
        any_of_kind(&s.variants, TrackMediaType::Audio),
        ",AUDIO=\"audio\"",
    );
    put_when(
        &mut out,
        any_of_kind(&s.variants, TrackMediaType::Subtitle),
        ",SUBTITLES=\"subs\"",
    );
    put_when(&mut out, s.cea_captions.len() > 0, ",CLOSED-CAPTIONS=\"cc\"");
    out.push_str("\n");
    out.push_str(uri);
    out.push_str("\n");
    out
}

/// The I-frame stream line of a video variant.
pub open spec fn iframe_stream_line(v: VariantInfo) -> Seq<char> {
    "#EXT-X-I-FRAME-STREAM-INF:BANDWIDTH="@ + text::dec(v.bandwidth as nat / 10) + ",CODECS=\""@
        + v.codecs@ + "\""@ + resolution_attr(v.resolution) + ",URI=\"iframes\"\n"@
}

/// The I-frame stream lines of the video streams among the first `n` variants.
pub open spec fn iframe_stream_lines(variants: Seq<VariantInfo>, n: nat) -> Seq<char>
    decreases n,
{
    if n == 0 {
        Seq::empty()
    } else if variants[n - 1].track_type is Video {
        iframe_stream_lines(variants, (n - 1) as nat) + iframe_stream_line(variants[n - 1])
    } else {
        iframe_stream_lines(variants, (n - 1) as nat)
    }
}

/// The I-frame stream line of a video variant.
fn iframe_stream_text(v: &VariantInfo) -> (out: String)
    ensures
        out@ == iframe_stream_line(*v),
{
    let mut out: String = "#EXT-X-I-FRAME-STREAM-INF:BANDWIDTH=".to_owned();
    text::put_dec(&mut out, v.bandwidth / 10);
    out.push_str(",CODECS=\"");
    out.push_str(v.codecs.as_str());
    out.push_str("\"");
    put_resolution(&mut out, v.resolution);
    out.push_str(",URI=\"iframes\"\n");
    out
}

/// The master playlist of a manifest.
pub open spec fn master_playlist(s: ManifestState, uris: Seq<String>) -> Seq<char> {
    "#EXTM3U\n#EXT-X-VERSION:7\n#EXT-X-INDEPENDENT-SEGMENTS\n"@ + steering_line(s) + session_key(s)
        + audio_lines(s.variants@, uris, s.variants@.len()) + subtitle_lines(
        s.variants@,
        uris,
        s.variants@.len(),
    ) + caption_lines(s.cea_captions@, s.cea_captions@.len()) + video_lines(
        s,
        uris,
        s.variants@.len(),
    ) + when(
        s.enable_iframe_playlist && s.iframe_segments@.len() > 0,
        iframe_stream_lines(s.variants@, s.variants@.len()),
    )
}

/// The four kinds of lines that a variant can have in a master playlist, for all variants:
/// audio, subtitles, video, I-frames.
fn variant_texts(state: &ManifestState, uris: &[String]) -> (out: (String, String, String, String))
    ensures
        out.0@ == audio_lines(state.variants@, uris@, state.variants@.len()),
        out.1@ == subtitle_lines(state.variants@, uris@, state.variants@.len()),
        out.2@ == video_lines(*state, uris@, state.variants@.len()),
        out.3@ == iframe_stream_lines(state.variants@, state.variants@.len()),
{
    let mut audio: String = String::new();
    let mut subtitles: String = String::new();
    let mut video: String = String::new();
    let mut frames: String = String::new();
    assert(audio@ =~= Seq::empty());
    let mut i: usize = 0;
    while i < state.variants.len()
        invariant
            i <= state.variants.len(),
            audio@ == audio_lines(state.variants@, uris@, i as nat),
            subtitles@ == subtitle_lines(state.variants@, uris@, i as nat),
            video@ == video_lines(*state, uris@, i as nat),
            frames@ == iframe_stream_lines(state.variants@, i as nat),
        decreases state.variants.len() - i,
    {
        let v: &VariantInfo = &state.variants[i];
        let uri: String = uri_of_variant(uris, i);
        match v.track_type {
            TrackMediaType::Audio => {
                audio.push_str(audio_text(v, uri.as_str()).as_str());
            },
            TrackMediaType::Subtitle => {
                subtitles.push_str(subtitle_text(v, uri.as_str()).as_str());
            },
            TrackMediaType::Video => {
                let stream: String = uri_of_stream(v, uris, i);
                video.push_str(stream_text(state, v, stream.as_str()).as_str());
                frames.push_str(iframe_stream_text(v).as_str());
            },
        }
        i = i + 1;
    }
    (audio, subtitles, video, frames)
}

/// Render an HLS master playlist referencing variant streams.
pub fn render_master(state: &ManifestState, variant_playlist_uris: &[String]) -> (r: Result<
    String,
    EdgepackError,
>)
    ensures
        r matches Ok(t) && t@ == master_playlist(*state, variant_playlist_uris@),
{
    let mut m3u8: String =
        "#EXTM3U\n#EXT-X-VERSION:7\n#EXT-X-INDEPENDENT-SEGMENTS\n".to_owned();
    put_steering(&mut m3u8, state);
    match &state.drm_info {
        Some(d) => {
            put_pssh_tag(
                &mut m3u8,
                "#EXT-X-SESSION-KEY",
                d,
                &d.widevine_pssh,
                "urn:uuid:edef8ba9-79d6-4ace-a3c8-27dcd51d21ed",
            );
        },
        None => {
            assert(m3u8@ =~= m3u8@ + Seq::<char>::empty());
        },
    }
    let (audio, subtitles, video, frames) = variant_texts(state, variant_playlist_uris);
    m3u8.push_str(audio.as_str());
    m3u8.push_str(subtitles.as_str());
    m3u8.push_str(caption_text(&state.cea_captions).as_str());
    m3u8.push_str(video.as_str());
    put_when(
        &mut m3u8,
        state.enable_iframe_playlist && state.iframe_segments.len() > 0,
        frames.as_str(),
    );
    Ok(m3u8)
}

proof fn lemma_starts_longer(a: Seq<char>, b: Seq<char>, head: Seq<char>)
    requires
        head.is_prefix_of(a),
    ensures
        head.is_prefix_of(a + b),
{
    assert(head =~= (a + b).take(head.len() as int));
}

/// Every media playlist starts with the playlist tag.
pub proof fn media_playlist_starts_with_its_tag(s: ManifestState)
    ensures
        "#EXTM3U\n"@.is_prefix_of(media_playlist(s)),
{
    let tag = "#EXTM3U\n"@;
    let a = tag + version_line(s) + "#EXT-X-TARGETDURATION:"@;
    let b = a + text::dec(s.target_duration.ceiling()) + "\n#EXT-X-MEDIA-SEQUENCE:"@;
    let c = b + text::dec(s.shown_sequence() as nat) + "\n"@;
    assert(tag.is_prefix_of(tag));
    lemma_starts_longer(tag, version_line(s), tag);
    lemma_starts_longer(tag + version_line(s), "#EXT-X-TARGETDURATION:"@, tag);
    lemma_starts_longer(a, text::dec(s.target_duration.ceiling()), tag);
    lemma_starts_longer(
        a + text::dec(s.target_duration.ceiling()),
        "\n#EXT-X-MEDIA-SEQUENCE:"@,
        tag,
    );
    lemma_starts_longer(b, text::dec(s.shown_sequence() as nat), tag);
    lemma_starts_longer(b + text::dec(s.shown_sequence() as nat), "\n"@, tag);
    lemma_starts_longer(c, control_tag(s.server_control), tag);
    lemma_starts_longer(
        c + control_tag(s.server_control),
        part_target_line(s.part_target_duration),
        tag,
    );
    let head = playlist_head(s);
    assert(tag.is_prefix_of(head));
    let lines = all_segment_lines(s, s.shown_segments(), s.shown_segments().len());
    let d = head + type_line(s) + "#EXT-X-INDEPENDENT-SEGMENTS\n"@;
    lemma_starts_longer(head, type_line(s), tag);
    lemma_starts_longer(head + type_line(s), "#EXT-X-INDEPENDENT-SEGMENTS\n"@, tag);
    lemma_starts_longer(d, first_keys(s), tag);
    lemma_starts_longer(d + first_keys(s), map_line(s), tag);
    lemma_starts_longer(d + first_keys(s) + map_line(s), lines, tag);
    lemma_starts_longer(d + first_keys(s) + map_line(s) + lines, end_line(s), tag);
}

/// A complete media playlist ends with the end tag.
pub proof fn complete_playlists_are_ended(s: ManifestState)
    requires
        s.phase is Complete,
    ensures
        ({
            let end = "#EXT-X-ENDLIST\n"@;
            let p = media_playlist(s);
            end.len() <= p.len() && p.skip(p.len() - end.len()) == end
        }),
{
    let end = "#EXT-X-ENDLIST\n"@;
    let p = media_playlist(s);
    assert(p.skip(p.len() - end.len()) =~= end);
}

/// A complete playlist shows every segment and is a VOD one, whatever DVR window is set.
pub proof fn complete_playlists_show_everything(s: ManifestState)
    requires
        s.phase is Complete,
    ensures
        s.shown_segments() == s.segments@,
        type_line(s) == "#EXT-X-PLAYLIST-TYPE:VOD\n"@,
{
    assert(s.shown_segments() =~= s.segments@);
}

} // verus!
