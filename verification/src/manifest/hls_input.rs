//! HLS M3U8 source manifest input parser.
//!
//! Parses an HLS media playlist to extract init segment URL, media segment URLs,
//! durations, and live/VOD status. This is the *input* side; the output renderers
//! are in `hls.rs`.

use crate::b64;
use crate::chars;
use crate::decimal;
use crate::decimal::Decimal;
use crate::drm::scheme::EncryptionScheme;
use crate::error::{EdgepackError, ErrorView};
use crate::manifest::types;
use crate::manifest::types::{
    AdBreakInfo, AdBreakView, HlsRenditionInfo, RenditionView, ServerControl, SourceManifest,
    SourcePartInfo, SourcePartView, SourceVariantInfo, SourceVariantView, SourceView,
};
use crate::media::cmaf;
use crate::text;
use crate::url;
use crate::url::{Url, UrlView};
use vstd::prelude::*;

verus! {

/// The value that starts at `start`: up to the next quote where it is quoted, else up to the
/// next comma or the end.
pub open spec fn value_at(line: Seq<char>, start: int) -> Option<Seq<char>> {
    if start < line.len() && line[start] == '"' {
        let end = chars::char_from(line, '"', start + 1);
        if end < line.len() {
            Some(line.subrange(start + 1, end))
        } else {
            None
        }
    } else {
        Some(line.subrange(start, chars::char_from(line, ',', start)))
    }
}

/// The value of the first quoted attribute whose name ends with `attr`.
pub open spec fn quoted(line: Seq<char>, attr: Seq<char>) -> Option<Seq<char>> {
    let search = attr + "=\""@;
    match chars::find_from(line, search, 0) {
        None => None,
        Some(k) => {
            let start = k + search.len();
            let end = chars::char_from(line, '"', start);
            if end < line.len() {
                Some(line.subrange(start, end))
            } else {
                None
            }
        },
    }
}

/// The value of the first attribute whose name ends with `attr`, quoted or not.
pub open spec fn bare(line: Seq<char>, attr: Seq<char>) -> Option<Seq<char>> {
    let search = attr + "="@;
    match chars::find_from(line, search, 0) {
        None => None,
        Some(k) => value_at(line, k + search.len()),
    }
}

/// Whether an attribute name may start at `k`: at the start, or after a comma, a colon or a
/// space.
pub open spec fn at_boundary(line: Seq<char>, k: int) -> bool {
    k == 0 || line[k - 1] == ',' || line[k - 1] == ':' || line[k - 1] == ' '
}

/// The value of the first attribute from `i` on that is named `attr`.
pub open spec fn exact_from(line: Seq<char>, attr: Seq<char>, i: int) -> Option<Seq<char>>
    decreases line.len() + 1 - i,
{
    let search = attr + "="@;
    match chars::find_from(line, search, i) {
        None => None,
        Some(k) => if k < i || k > line.len() {
            None
        } else if at_boundary(line, k) {
            value_at(line, k + search.len())
        } else {
            exact_from(line, attr, k + 1)
        },
    }
}

/// `attr` followed by `tail`.
fn search_text(attr: &str, tail: &str) -> (out: Vec<char>)
    ensures
        out@ == attr@ + tail@,
{
    let mut out: Vec<char> = chars::chars_of(attr);
    let mut more: Vec<char> = chars::chars_of(tail);
    out.append(&mut more);
    assert(out@ =~= attr@ + tail@);
    out
}

/// The value that starts at `start`.
fn read_value(line: &[char], start: usize) -> (value: Option<String>)
    requires
        start <= line.len(),
    ensures
        types::opt_text(value) == value_at(line@, start as int),
{
    if start < line.len() && line[start] == '"' {
        let end: usize = chars::find_char(line, '"', start + 1);
        if end < line.len() {
            Some(chars::string_of(&line[start + 1..end]))
        } else {
            None
        }
    } else {
        let end: usize = chars::find_char(line, ',', start);
        Some(chars::string_of(&line[start..end]))
    }
}

/// Extract a quoted attribute value from an HLS tag line.
/// e.g., extract_attribute(`#EXT-X-MAP:URI="init.mp4"`, "URI") returns Some("init.mp4")
pub fn extract_attribute(line: &str, attr: &str) -> (value: Option<String>)
    ensures
        types::opt_text(value) == quoted(line@, attr@),
{
    let search: Vec<char> = search_text(attr, "=\"");
    let text: Vec<char> = chars::chars_of(line);
    let line: &[char] = text.as_slice();
    let total: usize = line.len();
    match chars::find(line, search.as_slice(), 0) {
        None => None,
        Some(k) => {
            assert(k + search@.len() <= total);
            let start: usize = k + search.len();
            let end: usize = chars::find_char(line, '"', start);
            if end < total {
                Some(chars::string_of(&line[start..end]))
            } else {
                None
            }
        },
    }
}

/// Extract an unquoted attribute value from an HLS tag line.
/// e.g., extract_attribute_unquoted(`#EXT-X-KEY:METHOD=SAMPLE-AES-CTR,URI="..."`, "METHOD")
/// returns Some("SAMPLE-AES-CTR")
pub fn extract_attribute_unquoted(line: &str, attr: &str) -> (value: Option<String>)
    ensures
        types::opt_text(value) == bare(line@, attr@),
{
    let search: Vec<char> = search_text(attr, "=");
    let text: Vec<char> = chars::chars_of(line);
    let line: &[char] = text.as_slice();
    let total: usize = line.len();
    match chars::find(line, search.as_slice(), 0) {
        None => None,
        Some(k) => {
            assert(k + search@.len() <= total);
            read_value(line, k + search.len())
        },
    }
}

/// Extract an attribute value ensuring the match is at a proper boundary
/// (preceded by comma, colon, space, or start of string, not by another letter/hyphen).
/// This avoids "HOLD-BACK" matching inside "PART-HOLD-BACK".
#[verifier::loop_isolation(false)]
pub fn extract_exact_attribute(line: &str, attr: &str) -> (value: Option<String>)
    ensures
        types::opt_text(value) == exact_from(line@, attr@, 0),
{
    let search: Vec<char> = search_text(attr, "=");
    let text: Vec<char> = chars::chars_of(line);
    let line: &[char] = text.as_slice();
    let total: usize = line.len();
    proof {
        reveal_strlit("=");
    }
    let mut i: usize = 0;
    loop
        invariant
            i <= total,
            exact_from(line@, attr@, 0) == exact_from(line@, attr@, i as int),
        decreases total - i,
    {
        match chars::find(line, search.as_slice(), i) {
            None => {
                return None;
            },
            Some(k) => {
                assert(k + search@.len() <= total);
                if k == 0 || line[k - 1] == ',' || line[k - 1] == ':' || line[k - 1] == ' ' {
                    return read_value(line, k + search.len());
                }
                i = k + 1;
            },
        }
    }
}

/// The value of a hexadecimal digit.
pub open spec fn hex_value(c: char) -> Option<nat> {
    if '0' <= c <= '9' {
        Some((c as u32 - 0x30) as nat)
    } else if 'a' <= c <= 'f' {
        Some((c as u32 - 0x57) as nat)
    } else if 'A' <= c <= 'F' {
        Some((c as u32 - 0x37) as nat)
    } else {
        None
    }
}

/// The byte that two characters stand for: two hexadecimal digits, or a plus sign and one.
pub open spec fn hex_byte(a: char, b: char) -> Option<u8> {
    match hex_value(b) {
        None => None,
        Some(low) => if a == '+' {
            Some(low as u8)
        } else {
            match hex_value(a) {
                None => None,
                Some(high) => Some((high * 16 + low) as u8),
            }
        },
    }
}

/// The bytes that pairs of characters from `i` on stand for, after those in `got`.
pub open spec fn hex_from(s: Seq<char>, i: int, got: Seq<u8>) -> Option<Seq<u8>>
    decreases s.len() - i,
{
    if i < 0 || i + 1 >= s.len() {
        Some(got)
    } else {
        match hex_byte(s[i], s[i + 1]) {
            None => None,
            Some(b) => hex_from(s, i + 2, got.push(b)),
        }
    }
}

/// The bytes that a hexadecimal text stands for.
pub open spec fn hex_bytes(s: Seq<char>) -> Option<Seq<u8>> {
    if s.len() % 2 != 0 {
        None
    } else {
        hex_from(s, 0, Seq::empty())
    }
}

/// The value of a hexadecimal digit.
fn read_hex(c: char) -> (v: Option<u8>)
    ensures
        match v {
            Some(n) => hex_value(c) == Some(n as nat) && n < 16,
            None => hex_value(c) is None,
        },
{
    if '0' <= c && c <= '9' {
        Some((c as u32 - 0x30) as u8)
    } else if 'a' <= c && c <= 'f' {
        Some((c as u32 - 0x57) as u8)
    } else if 'A' <= c && c <= 'F' {
        Some((c as u32 - 0x37) as u8)
    } else {
        None
    }
}

/// Decode a hex string into bytes. Returns None if the string has odd length or invalid chars.
#[verifier::loop_isolation(false)]
pub fn hex_decode(hex: &str) -> (out: Option<Vec<u8>>)
    ensures
        cmaf::opt_bytes(out) == hex_bytes(hex@),
{
    let text: Vec<char> = chars::chars_of(hex);
    let hex: &[char] = text.as_slice();
    if hex.len() % 2 != 0 {
        return None;
    }
    let mut out: Vec<u8> = Vec::new();
    let mut i: usize = 0;
    while i < hex.len()
        invariant
            i <= hex.len(),
            i % 2 == 0,
            hex_bytes(hex@) == hex_from(hex@, i as int, out@),
        decreases hex.len() - i,
    {
        let low: u8 = match read_hex(hex[i + 1]) {
            Some(low) => low,
            None => return None,
        };
        if hex[i] == '+' {
            out.push(low);
        } else {
            match read_hex(hex[i]) {
                Some(high) => {
                    out.push(high * 16 + low);
                },
                None => {
                    return None;
                },
            }
        }
        i = i + 2;
    }
    Some(out)
}

/// A hexadecimal number without its `0x`.
pub open spec fn without_0x(s: Seq<char>) -> Seq<char> {
    if chars::starts(s, "0x"@) || chars::starts(s, "0X"@) {
        s.subrange(2, s.len() as int)
    } else {
        s
    }
}

/// A hexadecimal number without its `0x`.
fn strip_0x(text: &str) -> (out: String)
    ensures
        out@ == without_0x(text@),
{
    let chars: Vec<char> = chars::chars_of(text);
    let s: &[char] = chars.as_slice();
    proof {
        reveal_strlit("0x");
        reveal_strlit("0X");
    }
    if chars::starts_with(s, "0x") || chars::starts_with(s, "0X") {
        chars::string_of(&s[2..s.len()])
    } else {
        text.to_owned()
    }
}

/// A failed manifest with a fixed message.
pub open spec fn manifest_err<T>(message: &str) -> Result<T, ErrorView> {
    Err(ErrorView::Manifest(message@))
}

/// A reference resolved against a base; an absolute HTTP URL stays.
pub open spec fn resolved(base: UrlView, s: Seq<char>) -> Result<Seq<char>, ErrorView> {
    if chars::starts(s, "http://"@) || chars::starts(s, "https://"@) {
        Ok(s)
    } else {
        match url::joined(base, s) {
            Ok(u) => Ok(u),
            Err(e) => Err(ErrorView::Manifest("resolve URL: "@ + e)),
        }
    }
}

/// The content of a resolved reference.
pub open spec fn text_outcome(r: Result<String, EdgepackError>) -> Result<Seq<char>, ErrorView> {
    match r {
        Ok(u) => Ok(u@),
        Err(e) => Err(e@),
    }
}

/// Resolve a possibly-relative URI against a base URL.
pub fn resolve_url(base: &Url, relative: &str) -> (r: Result<String, EdgepackError>)
    ensures
        text_outcome(r) == resolved(base@, relative@),
{
    let text: Vec<char> = chars::chars_of(relative);
    if chars::starts_with(text.as_slice(), "http://") || chars::starts_with(
        text.as_slice(),
        "https://",
    ) {
        return Ok(relative.to_owned());
    }
    match base.join(relative) {
        Ok(u) => Ok(u),
        Err(e) => {
            let mut message: String = "resolve URL: ".to_owned();
            message.push_str(e.as_str());
            Err(EdgepackError::Manifest(message))
        },
    }
}

/// The base URL of a manifest.
pub open spec fn base_of(manifest_url: Seq<char>) -> Result<UrlView, ErrorView> {
    match url::url_of(manifest_url) {
        Ok(u) => Ok(u),
        Err(e) => Err(ErrorView::Manifest("invalid manifest URL: "@ + e)),
    }
}

/// The base URL of a manifest.
pub fn parse_base(manifest_url: &str) -> (r: Result<Url, EdgepackError>)
    ensures
        cmaf::outcome_view(r) == base_of(manifest_url@),
{
    match Url::parse(manifest_url) {
        Ok(u) => Ok(u),
        Err(e) => {
            let mut message: String = "invalid manifest URL: ".to_owned();
            message.push_str(e.as_str());
            Err(EdgepackError::Manifest(message))
        },
    }
}

/// The decimal number in an attribute.
pub open spec fn decimal_in(value: Option<Seq<char>>) -> Option<Decimal> {
    match value {
        Some(v) => decimal::decimal_of(v),
        None => None,
    }
}

/// The decimal number in an attribute.
fn parse_decimal(value: Option<String>) -> (d: Option<Decimal>)
    ensures
        d == decimal_in(types::opt_text(value)),
{
    match value {
        Some(v) => Decimal::parse(chars::chars_of(v.as_str()).as_slice()),
        None => None,
    }
}

/// Whether an attribute is `YES`.
pub open spec fn is_yes(value: Option<Seq<char>>) -> bool {
    value == Some("YES"@)
}

/// Whether an attribute is `YES`.
fn says_yes(value: Option<String>) -> (yes: bool)
    ensures
        yes == is_yes(types::opt_text(value)),
{
    match value {
        Some(v) => text::same_text(v.as_str(), "YES"),
        None => false,
    }
}

/// The splice event number in an identifier of the form `splice-{id}`; zero for any other.
pub open spec fn splice_id(id: Seq<char>) -> u32 {
    if chars::starts(id, "splice-"@) {
        match chars::number_of(id.subrange(7, id.len() as int), u32::MAX as nat) {
            Some(n) => n as u32,
            None => 0,
        }
    } else {
        0
    }
}

/// The text, or the empty text where there is none.
pub open spec fn or_empty(t: Option<Seq<char>>) -> Seq<char> {
    match t {
        Some(s) => s,
        None => Seq::empty(),
    }
}

/// The ad break that an `#EXT-X-DATERANGE` line announces.
pub open spec fn ad_break_of(line: Seq<char>, segment_number: u32, elapsed: Decimal) -> Option<
    AdBreakView,
> {
    let cmd = bare(line, "SCTE35-CMD"@);
    if cmd is None && bare(line, "SCTE35-OUT"@) is None {
        None
    } else {
        Some(
            AdBreakView {
                id: splice_id(or_empty(quoted(line, "ID"@))),
                presentation_time: elapsed,
                duration: decimal_in(bare(line, "PLANNED-DURATION"@)),
                scte35_cmd: match cmd {
                    None => None,
                    Some(hex) => match hex_bytes(without_0x(hex)) {
                        None => None,
                        Some(bytes) => Some(b64::encoded(bytes)),
                    },
                },
                segment_number,
            },
        )
    }
}

/// The content of an optional ad break.
pub open spec fn opt_break(b: Option<AdBreakInfo>) -> Option<AdBreakView> {
    match b {
        Some(v) => Some(v@),
        None => None,
    }
}

/// Parse an `#EXT-X-DATERANGE` tag into an `AdBreakInfo` if it contains SCTE-35 signaling.
///
/// Looks for an `SCTE35-CMD` (hex-encoded) or an `SCTE35-OUT` attribute.
/// Uses the `ID` attribute (expected format `splice-{id}`) to extract the splice event ID.
pub fn parse_daterange_ad_break(line: &str, segment_number: u32, elapsed_time: Decimal) -> (b:
    Option<AdBreakInfo>)
    ensures
        opt_break(b) == ad_break_of(line@, segment_number, elapsed_time),
{
    let cmd: Option<String> = extract_attribute_unquoted(line, "SCTE35-CMD");
    let out: Option<String> = extract_attribute_unquoted(line, "SCTE35-OUT");
    if cmd.is_none() && out.is_none() {
        return None;
    }
    let id: u32 = match extract_attribute(line, "ID") {
        Some(id) => {
            proof {
                reveal_strlit("splice-");
            }
            let chars: Vec<char> = chars::chars_of(id.as_str());
            if chars::starts_with(chars.as_slice(), "splice-") {
                let digits: &[char] = &chars.as_slice()[7..chars.len()];
                match chars::parse_number(digits, u32::MAX as u64) {
                    Some(n) => n as u32,
                    None => 0,
                }
            } else {
                0
            }
        },
        None => {
            proof {
                reveal_strlit("splice-");
            }
            0
        },
    };
    let duration: Option<Decimal> = parse_decimal(
        extract_attribute_unquoted(line, "PLANNED-DURATION"),
    );
    let scte35_cmd: Option<String> = match cmd {
        None => None,
        Some(hex) => match hex_decode(strip_0x(hex.as_str()).as_str()) {
            None => None,
            Some(bytes) => Some(b64::encode(bytes.as_slice())),
        },
    };
    Some(
        AdBreakInfo { id, presentation_time: elapsed_time, duration, scte35_cmd, segment_number },
    )
}

/// The part that an `#EXT-X-PART` line announces.
pub open spec fn part_of(line: Seq<char>, base: UrlView, segment_number: u32, part_index: u32) -> Option<
    SourcePartView,
> {
    match decimal_in(bare(line, "DURATION"@)) {
        None => None,
        Some(duration) => match quoted(line, "URI"@) {
            None => None,
            Some(raw) => match resolved(base, raw) {
                Err(_) => None,
                Ok(uri) => Some(
                    SourcePartView {
                        segment_number,
                        part_index,
                        duration,
                        independent: is_yes(bare(line, "INDEPENDENT"@)),
                        uri,
                    },
                ),
            },
        },
    }
}

/// The content of an optional part.
pub open spec fn opt_part(p: Option<SourcePartInfo>) -> Option<SourcePartView> {
    match p {
        Some(v) => Some(v@),
        None => None,
    }
}

/// Parse an `#EXT-X-PART` tag into a `SourcePartInfo`.
pub fn parse_ext_x_part(line: &str, base_url: &Url, segment_number: u32, part_index: u32) -> (p:
    Option<SourcePartInfo>)
    ensures
        opt_part(p) == part_of(line@, base_url@, segment_number, part_index),
{
    let duration: Decimal = match parse_decimal(extract_attribute_unquoted(line, "DURATION")) {
        Some(duration) => duration,
        None => return None,
    };
    let raw: String = match extract_attribute(line, "URI") {
        Some(raw) => raw,
        None => return None,
    };
    let uri: String = match resolve_url(base_url, raw.as_str()) {
        Ok(uri) => uri,
        Err(_) => return None,
    };
    let independent: bool = says_yes(extract_attribute_unquoted(line, "INDEPENDENT"));
    Some(SourcePartInfo { segment_number, part_index, duration, independent, uri })
}

/// What an `#EXT-X-SERVER-CONTROL` line says.
pub open spec fn control_of(line: Seq<char>) -> ServerControl {
    ServerControl {
        can_skip_until: decimal_in(bare(line, "CAN-SKIP-UNTIL"@)),
        hold_back: decimal_in(exact_from(line, "HOLD-BACK"@, 0)),
        part_hold_back: decimal_in(bare(line, "PART-HOLD-BACK"@)),
        can_block_reload: is_yes(bare(line, "CAN-BLOCK-RELOAD"@)),
    }
}

/// Parse an `#EXT-X-SERVER-CONTROL` tag into a `ServerControl`.
pub fn parse_server_control(line: &str) -> (c: ServerControl)
    ensures
        c == control_of(line@),
{
    ServerControl {
        can_skip_until: parse_decimal(extract_attribute_unquoted(line, "CAN-SKIP-UNTIL")),
        hold_back: parse_decimal(extract_exact_attribute(line, "HOLD-BACK")),
        part_hold_back: parse_decimal(extract_attribute_unquoted(line, "PART-HOLD-BACK")),
        can_block_reload: says_yes(extract_attribute_unquoted(line, "CAN-BLOCK-RELOAD")),
    }
}

/// What was read of a media playlist so far.
pub struct PlaylistView {
    pub init: Option<Seq<char>>,
    pub urls: Seq<Seq<char>>,
    pub durations: Seq<Decimal>,
    pub live: bool,
    pub pending: Option<Decimal>,
    pub scheme: Option<EncryptionScheme>,
    pub breaks: Seq<AdBreakView>,
    pub elapsed: Decimal,
    pub ts: bool,
    pub key_url: Option<Seq<char>>,
    pub key_iv: Option<Seq<u8>>,
    pub parts: Seq<SourcePartView>,
    pub part_target: Option<Decimal>,
    pub control: Option<ServerControl>,
    /// Parts read of the segment that is not complete yet.
    pub open_parts: nat,
}

/// The key IV in a key line, or the one known before.
pub open spec fn key_iv_of(line: Seq<char>, known: Option<Seq<u8>>) -> Option<Seq<u8>> {
    match bare(line, "IV"@) {
        None => known,
        Some(hex) => match hex_bytes(without_0x(hex)) {
            Some(bytes) if bytes.len() == 16 => Some(bytes),
            _ => known,
        },
    }
}

/// The text before the first comma.
pub open spec fn before_comma(s: Seq<char>) -> Seq<char> {
    s.subrange(0, chars::char_from(s, ',', 0))
}

impl PlaylistView {
    /// Nothing read yet. A playlist is live until its end is announced.
    pub open spec fn fresh() -> PlaylistView {
        PlaylistView {
            init: None,
            urls: Seq::empty(),
            durations: Seq::empty(),
            live: true,
            pending: None,
            scheme: None,
            breaks: Seq::empty(),
            elapsed: Decimal { nanos: 0 },
            ts: false,
            key_url: None,
            key_iv: None,
            parts: Seq::empty(),
            part_target: None,
            control: None,
            open_parts: 0,
        }
    }

    /// After an `#EXT-X-KEY` line.
    pub open spec fn with_key(self, base: UrlView, line: Seq<char>) -> Result<
        PlaylistView,
        ErrorView,
    > {
        match bare(line, "METHOD"@) {
            None => Ok(self),
            Some(method) => if method == "SAMPLE-AES-CTR"@ {
                Ok(PlaylistView { scheme: Some(EncryptionScheme::Cenc), ..self })
            } else if method == "SAMPLE-AES"@ {
                Ok(PlaylistView { scheme: Some(EncryptionScheme::Cbcs), ..self })
            } else if method == "AES-128"@ {
                match quoted(line, "URI"@) {
                    None => Ok(PlaylistView { key_iv: key_iv_of(line, self.key_iv), ..self }),
                    Some(uri) => match resolved(base, uri) {
                        Err(e) => Err(e),
                        Ok(u) => Ok(
                            PlaylistView {
                                key_url: Some(u),
                                key_iv: key_iv_of(line, self.key_iv),
                                ..self
                            },
                        ),
                    },
                }
            } else {
                Ok(self)
            },
        }
    }

    /// After a line with the URI of a segment. Without a duration before it, the line is
    /// passed over.
    pub open spec fn with_segment(self, base: UrlView, line: Seq<char>) -> Result<
        PlaylistView,
        ErrorView,
    > {
        match self.pending {
            None => Ok(self),
            Some(duration) => match resolved(base, line) {
                Err(e) => Err(e),
                Ok(u) => Ok(
                    PlaylistView {
                        urls: self.urls.push(u),
                        durations: self.durations.push(duration),
                        pending: None,
                        elapsed: self.elapsed.sum(duration),
                        ts: self.ts || chars::ends(line, ".ts"@) || chars::holds(line, ".ts?"@),
                        open_parts: 0,
                        ..self
                    },
                ),
            },
        }
    }

    /// After one more line, white space at its ends removed.
    pub open spec fn step(self, base: UrlView, line: Seq<char>) -> Result<PlaylistView, ErrorView> {
        if chars::starts(line, "#EXT-X-MAP:"@) {
            match quoted(line, "URI"@) {
                None => Ok(self),
                Some(uri) => match resolved(base, uri) {
                    Err(e) => Err(e),
                    Ok(u) => Ok(PlaylistView { init: Some(u), ..self }),
                },
            }
        } else if chars::starts(line, "#EXT-X-KEY:"@) {
            self.with_key(base, line)
        } else if chars::starts(line, "#EXT-X-DATERANGE:"@) {
            match ad_break_of(line, self.urls.len() as u32, self.elapsed) {
                None => Ok(self),
                Some(b) => Ok(PlaylistView { breaks: self.breaks.push(b), ..self }),
            }
        } else if chars::starts(line, "#EXT-X-PART-INF:"@) {
            match bare(line, "PART-TARGET"@) {
                None => Ok(self),
                Some(v) => Ok(PlaylistView { part_target: decimal::decimal_of(v), ..self }),
            }
        } else if chars::starts(line, "#EXT-X-PART:"@) {
            match part_of(line, base, self.urls.len() as u32, self.open_parts as u32) {
                None => Ok(self),
                Some(p) => Ok(
                    PlaylistView {
                        parts: self.parts.push(p),
                        open_parts: self.open_parts + 1,
                        ..self
                    },
                ),
            }
        } else if chars::starts(line, "#EXT-X-SERVER-CONTROL:"@) {
            Ok(PlaylistView { control: Some(control_of(line)), ..self })
        } else if chars::starts(line, "#EXTINF:"@) {
            Ok(
                PlaylistView {
                    pending: decimal::decimal_of(
                        before_comma(line.subrange(8, line.len() as int)),
                    ),
                    ..self
                },
            )
        } else if chars::starts(line, "#EXT-X-ENDLIST"@) {
            Ok(PlaylistView { live: false, ..self })
        } else if line.len() > 0 && line[0] != '#' {
            self.with_segment(base, line)
        } else {
            Ok(self)
        }
    }

    /// After the lines from `i` on.
    pub open spec fn steps(self, base: UrlView, lines: Seq<Seq<char>>, i: int) -> Result<
        PlaylistView,
        ErrorView,
    >
        decreases lines.len() - i,
    {
        if i < 0 || i >= lines.len() {
            Ok(self)
        } else {
            match self.step(base, chars::trimmed(lines[i])) {
                Err(e) => Err(e),
                Ok(next) => next.steps(base, lines, i + 1),
            }
        }
    }

    /// The manifest that was read. A source of transport stream segments needs no init
    /// segment.
    pub open spec fn manifest(self) -> Result<SourceView, ErrorView> {
        if self.init is None && !self.ts {
            manifest_err("HLS manifest missing #EXT-X-MAP (init segment)")
        } else {
            Ok(
                SourceView {
                    init_segment_url: or_empty(self.init),
                    segment_urls: self.urls,
                    segment_durations: self.durations,
                    is_live: self.live,
                    source_scheme: self.scheme,
                    ad_breaks: self.breaks,
                    parts: self.parts,
                    part_target_duration: self.part_target,
                    server_control: self.control,
                    ll_dash_info: None,
                    is_ts_source: self.ts,
                    aes128_key_url: self.key_url,
                    aes128_iv: self.key_iv,
                    content_steering: None,
                    init_byte_range: None,
                    segment_byte_ranges: Seq::empty(),
                    segment_base: None,
                    source_variants: Seq::empty(),
                },
            )
        }
    }
}

/// The manifest that a media playlist describes.
pub open spec fn hls_source(playlist: Seq<char>, manifest_url: Seq<char>) -> Result<
    SourceView,
    ErrorView,
> {
    match base_of(manifest_url) {
        Err(e) => Err(e),
        Ok(base) => if chars::holds(playlist, "#EXT-X-STREAM-INF"@) {
            manifest_err(
                "received HLS master playlist \u{2014} expected a media playlist URL. Select a specific variant/rendition playlist URL instead.",
            )
        } else {
            match PlaylistView::fresh().steps(base, chars::pieces(playlist, '\n'), 0) {
                Err(e) => Err(e),
                Ok(p) => p.manifest(),
            }
        },
    }
}

/// What was read of a media playlist so far.
struct Playlist {
    init: Option<String>,
    urls: Vec<String>,
    durations: Vec<Decimal>,
    live: bool,
    pending: Option<Decimal>,
    scheme: Option<EncryptionScheme>,
    breaks: Vec<AdBreakInfo>,
    elapsed: Decimal,
    ts: bool,
    key_url: Option<String>,
    key_iv: Option<[u8; 16]>,
    parts: Vec<SourcePartInfo>,
    part_target: Option<Decimal>,
    control: Option<ServerControl>,
    open_parts: usize,
}

impl View for Playlist {
    type V = PlaylistView;

    closed spec fn view(&self) -> PlaylistView {
        PlaylistView {
            init: types::opt_text(self.init),
            urls: types::texts(self.urls@),
            durations: self.durations@,
            live: self.live,
            pending: self.pending,
            scheme: self.scheme,
            breaks: types::breaks_view(self.breaks@),
            elapsed: self.elapsed,
            ts: self.ts,
            key_url: types::opt_text(self.key_url),
            key_iv: types::opt_iv(self.key_iv),
            parts: types::parts_view(self.parts@),
            part_target: self.part_target,
            control: self.control,
            open_parts: self.open_parts as nat,
        }
    }
}

/// How a line changes what was read.
pub open spec fn step_result(
    r: Result<(), EdgepackError>,
    after: PlaylistView,
    step: Result<PlaylistView, ErrorView>,
) -> bool {
    match r {
        Ok(_) => step == Ok::<PlaylistView, ErrorView>(after),
        Err(e) => step == Err::<PlaylistView, ErrorView>(e@),
    }
}

impl Playlist {
    /// Nothing read yet.
    fn new() -> (p: Playlist)
        ensures
            p@ == PlaylistView::fresh(),
            p.open_parts <= p.parts@.len(),
    {
        let p: Playlist = Playlist {
            init: None,
            urls: Vec::new(),
            durations: Vec::new(),
            live: true,
            pending: None,
            scheme: None,
            breaks: Vec::new(),
            elapsed: Decimal { nanos: 0 },
            ts: false,
            key_url: None,
            key_iv: None,
            parts: Vec::new(),
            part_target: None,
            control: None,
            open_parts: 0,
        };
        assert(p@.urls =~= Seq::empty());
        assert(p@.durations =~= Seq::empty());
        assert(p@.breaks =~= Seq::empty());
        assert(p@.parts =~= Seq::empty());
        p
    }

    /// Reads an `#EXT-X-KEY` line.
    fn read_key(&mut self, base: &Url, line: &str) -> (r: Result<(), EdgepackError>)
        ensures
            step_result(r, final(self)@, old(self)@.with_key(base@, line@)),
            final(self).open_parts == old(self).open_parts,
            final(self).parts@ == old(self).parts@,
    {
        let method: String = match extract_attribute_unquoted(line, "METHOD") {
            Some(method) => method,
            None => return Ok(()),
        };
        if text::same_text(method.as_str(), "SAMPLE-AES-CTR") {
            self.scheme = Some(EncryptionScheme::Cenc);
        } else if text::same_text(method.as_str(), "SAMPLE-AES") {
            self.scheme = Some(EncryptionScheme::Cbcs);
        } else if text::same_text(method.as_str(), "AES-128") {
            if let Some(uri) = extract_attribute(line, "URI") {
                match resolve_url(base, uri.as_str()) {
                    Ok(u) => {
                        self.key_url = Some(u);
                    },
                    Err(e) => {
                        return Err(e);
                    },
                }
            }
            if let Some(hex) = extract_attribute_unquoted(line, "IV") {
                if let Some(bytes) = hex_decode(strip_0x(hex.as_str()).as_str()) {
                    if bytes.len() == 16 {
                        let iv: [u8; 16] = crate::bytes::read_16(bytes.as_slice(), 0);
                        assert(iv@ =~= bytes@);
                        self.key_iv = Some(iv);
                    }
                }
            }
        }
        Ok(())
    }

    /// Reads the URI line of a segment.
    fn read_segment(&mut self, base: &Url, line: &str) -> (r: Result<(), EdgepackError>)
        requires
            old(self).open_parts <= old(self).parts@.len(),
        ensures
            step_result(r, final(self)@, old(self)@.with_segment(base@, line@)),
            final(self).open_parts <= final(self).parts@.len(),
    {
        let duration: Decimal = match self.pending {
            Some(duration) => duration,
            None => return Ok(()),
        };
        let resolved: String = match resolve_url(base, line) {
            Ok(u) => u,
            Err(e) => return Err(e),
        };
        let ghost urls_before = self.urls@;
        let ghost url = resolved@;
        self.pending = None;
        let chars: Vec<char> = chars::chars_of(line);
        if !self.ts && (chars::ends_with(chars.as_slice(), ".ts") || chars::contains(
            chars.as_slice(),
            ".ts?",
        )) {
            self.ts = true;
        }
        self.urls.push(resolved);
        self.durations.push(duration);
        self.elapsed = self.elapsed.plus(duration);
        self.open_parts = 0;
        assert(types::texts(self.urls@) =~= types::texts(urls_before).push(url));
        Ok(())
    }

    /// Reads one line, white space at its ends removed.
    fn read_line(&mut self, base: &Url, text: &str) -> (r: Result<(), EdgepackError>)
        requires
            old(self).open_parts <= old(self).parts@.len(),
        ensures
            step_result(r, final(self)@, old(self)@.step(base@, text@)),
            final(self).open_parts <= final(self).parts@.len(),
    {
        proof {
            reveal_strlit("#EXTINF:");
        }
        let chars: Vec<char> = chars::chars_of(text);
        let line: &[char] = chars.as_slice();
        if chars::starts_with(line, "#EXT-X-MAP:") {
            if let Some(uri) = extract_attribute(text, "URI") {
                match resolve_url(base, uri.as_str()) {
                    Ok(u) => {
                        self.init = Some(u);
                    },
                    Err(e) => {
                        return Err(e);
                    },
                }
            }
        } else if chars::starts_with(line, "#EXT-X-KEY:") {
            return self.read_key(base, text);
        } else if chars::starts_with(line, "#EXT-X-DATERANGE:") {
            let number: u32 = self.urls.len() as u32;
            if let Some(b) = parse_daterange_ad_break(text, number, self.elapsed) {
                let ghost before = self.breaks@;
                let ghost view = b@;
                self.breaks.push(b);
                assert(types::breaks_view(self.breaks@) =~= types::breaks_view(before).push(view));
            }
        } else if chars::starts_with(line, "#EXT-X-PART-INF:") {
            if let Some(v) = extract_attribute_unquoted(text, "PART-TARGET") {
                self.part_target = Decimal::parse(chars::chars_of(v.as_str()).as_slice());
            }
        } else if chars::starts_with(line, "#EXT-X-PART:") {
            let number: u32 = self.urls.len() as u32;
            if let Some(p) = parse_ext_x_part(text, base, number, self.open_parts as u32) {
                let ghost before = self.parts@;
                let ghost view = p@;
                self.parts.push(p);
                assert(types::parts_view(self.parts@) =~= types::parts_view(before).push(view));
                let total: usize = self.parts.len();
                assert(self.open_parts < total);
                self.open_parts = self.open_parts + 1;
            }
        } else if chars::starts_with(line, "#EXT-X-SERVER-CONTROL:") {
            self.control = Some(parse_server_control(text));
        } else if chars::starts_with(line, "#EXTINF:") {
            let rest: &[char] = &line[8..line.len()];
            let end: usize = chars::find_char(rest, ',', 0);
            self.pending = Decimal::parse(&rest[0..end]);
        } else if chars::starts_with(line, "#EXT-X-ENDLIST") {
            self.live = false;
        } else if line.len() > 0 && line[0] != '#' {
            return self.read_segment(base, text);
        }
        Ok(())
    }

    /// The manifest that was read.
    fn finish(self) -> (r: Result<SourceManifest, EdgepackError>)
        ensures
            cmaf::outcome_view(r) == self@.manifest(),
    {
        let init_segment_url: String = match self.init {
            Some(u) => u,
            None => {
                if !self.ts {
                    return Err(
                        EdgepackError::manifest("HLS manifest missing #EXT-X-MAP (init segment)"),
                    );
                }
                let none: String = String::new();
                assert(none@ =~= Seq::empty());
                none
            },
        };
        let m: SourceManifest = SourceManifest {
            init_segment_url,
            segment_urls: self.urls,
            segment_durations: self.durations,
            is_live: self.live,
            source_scheme: self.scheme,
            ad_breaks: self.breaks,
            parts: self.parts,
            part_target_duration: self.part_target,
            server_control: self.control,
            ll_dash_info: None,
            is_ts_source: self.ts,
            aes128_key_url: self.key_url,
            aes128_iv: self.key_iv,
            content_steering: None,
            init_byte_range: None,
            segment_byte_ranges: Vec::new(),
            segment_base: None,
            source_variants: Vec::new(),
        };
        assert(m@.segment_byte_ranges =~= Seq::empty());
        assert(m@.source_variants =~= Seq::empty());
        Ok(m)
    }
}

/// Parse an HLS M3U8 media playlist into a `SourceManifest`.
///
/// The `manifest_url` is used as the base for resolving relative segment URIs.
///
/// # Errors
///
/// Returns an error if:
/// - The manifest URL is invalid
/// - The manifest is a master playlist (contains `#EXT-X-STREAM-INF`)
/// - No `#EXT-X-MAP` (init segment) is found
#[verifier::loop_isolation(false)]
pub fn parse_hls_manifest(manifest_text: &str, manifest_url: &str) -> (r: Result<
    SourceManifest,
    EdgepackError,
>)
    ensures
        cmaf::outcome_view(r) == hls_source(manifest_text@, manifest_url@),
{
    let base: Url = match parse_base(manifest_url) {
        Ok(base) => base,
        Err(e) => return Err(e),
    };
    let text: Vec<char> = chars::chars_of(manifest_text);
    if chars::contains(text.as_slice(), "#EXT-X-STREAM-INF") {
        return Err(
            EdgepackError::manifest(
                "received HLS master playlist \u{2014} expected a media playlist URL. Select a specific variant/rendition playlist URL instead.",
            ),
        );
    }
    let lines: Vec<Vec<char>> = chars::split(text.as_slice(), '\n');
    let ghost views = chars::texts_view(lines@);
    let mut playlist: Playlist = Playlist::new();
    let mut i: usize = 0;
    while i < lines.len()
        invariant
            i <= lines.len(),
            playlist.open_parts <= playlist.parts@.len(),
            PlaylistView::fresh().steps(base@, views, 0) == playlist@.steps(base@, views, i as int),
        decreases lines.len() - i,
    {
        assert(views[i as int] == lines@[i as int]@);
        let line: String = chars::string_of(chars::trim(lines[i].as_slice()));
        match playlist.read_line(&base, line.as_str()) {
            Ok(_) => {},
            Err(e) => {
                return Err(e);
            },
        }
        i = i + 1;
    }
    playlist.finish()
}

/// Parsed HLS master playlist variant and rendition metadata.
///
/// Contains all variant streams and rendition groups extracted from an HLS master
/// playlist: the available quality levels, audio tracks, and subtitle tracks.
#[derive(Debug, Clone)]
pub struct HlsMasterPlaylistInfo {
    /// Video variant metadata (bandwidth, resolution, codecs, frame rate).
    pub variants: Vec<SourceVariantInfo>,
    /// URIs of variant media playlists (parallel to `variants`).
    pub variant_uris: Vec<String>,
    /// Audio rendition group members.
    pub audio_renditions: Vec<HlsRenditionInfo>,
    /// Subtitle rendition group members.
    pub subtitle_renditions: Vec<HlsRenditionInfo>,
}

/// The content of an [`HlsMasterPlaylistInfo`].
pub struct MasterView {
    pub variants: Seq<SourceVariantView>,
    pub variant_uris: Seq<Seq<char>>,
    pub audio_renditions: Seq<RenditionView>,
    pub subtitle_renditions: Seq<RenditionView>,
}

/// The contents of a list of renditions.
pub open spec fn renditions_view(list: Seq<HlsRenditionInfo>) -> Seq<RenditionView> {
    list.map_values(|r: HlsRenditionInfo| r@)
}

impl View for HlsMasterPlaylistInfo {
    type V = MasterView;

    open spec fn view(&self) -> MasterView {
        MasterView {
            variants: types::variants_view(self.variants@),
            variant_uris: types::texts(self.variant_uris@),
            audio_renditions: renditions_view(self.audio_renditions@),
            subtitle_renditions: renditions_view(self.subtitle_renditions@),
        }
    }
}

/// Width and height in a text of the form `1920x1080`.
pub open spec fn resolution_of(s: Seq<char>) -> Option<(u32, u32)> {
    let parts = chars::pieces(s, 'x');
    if parts.len() == 2 {
        match (
            chars::number_of(parts[0], u32::MAX as nat),
            chars::number_of(parts[1], u32::MAX as nat),
        ) {
            (Some(w), Some(h)) => Some((w as u32, h as u32)),
            _ => None,
        }
    } else {
        None
    }
}

/// The resolution in an attribute.
pub open spec fn resolution_in(value: Option<Seq<char>>) -> Option<(u32, u32)> {
    match value {
        Some(v) => resolution_of(v),
        None => None,
    }
}

/// The variant that an `#EXT-X-STREAM-INF` line announces.
pub open spec fn variant_of(line: Seq<char>) -> SourceVariantView {
    let attrs = line.subrange(18, line.len() as int);
    let size = resolution_in(bare(attrs, "RESOLUTION"@));
    SourceVariantView {
        bandwidth: match bare(attrs, "BANDWIDTH"@) {
            None => 0,
            Some(v) => match chars::number_of(v, u64::MAX as nat) {
                Some(n) => n as u64,
                None => 0,
            },
        },
        width: match size {
            Some((w, _)) => Some(w),
            None => None,
        },
        height: match size {
            Some((_, h)) => Some(h),
            None => None,
        },
        codecs: quoted(line, "CODECS"@),
        frame_rate: bare(attrs, "FRAME-RATE"@),
    }
}

/// Width and height in a text of the form `1920x1080`.
fn parse_resolution(value: Option<String>) -> (size: Option<(u32, u32)>)
    ensures
        size == resolution_in(types::opt_text(value)),
{
    let chars: Vec<char> = match value {
        Some(v) => chars::chars_of(v.as_str()),
        None => return None,
    };
    let parts: Vec<Vec<char>> = chars::split(chars.as_slice(), 'x');
    assert(chars::texts_view(parts@).len() == parts@.len());
    if parts.len() != 2 {
        return None;
    }
    assert(chars::texts_view(parts@)[0] == parts@[0]@);
    assert(chars::texts_view(parts@)[1] == parts@[1]@);
    match (
        chars::parse_number(parts[0].as_slice(), u32::MAX as u64),
        chars::parse_number(parts[1].as_slice(), u32::MAX as u64),
    ) {
        (Some(w), Some(h)) => Some((w as u32, h as u32)),
        _ => None,
    }
}

/// The variant that an `#EXT-X-STREAM-INF` line announces.
fn parse_stream_inf(line: &str) -> (v: SourceVariantInfo)
    requires
        line@.len() >= 18,
    ensures
        v@ == variant_of(line@),
{
    let chars: Vec<char> = chars::chars_of(line);
    let attrs: String = chars::string_of(&chars.as_slice()[18..chars.len()]);
    let bandwidth: u64 = match extract_attribute_unquoted(attrs.as_str(), "BANDWIDTH") {
        Some(v) => match chars::parse_number(chars::chars_of(v.as_str()).as_slice(), u64::MAX) {
            Some(n) => n,
            None => 0,
        },
        None => 0,
    };
    let size: Option<(u32, u32)> = parse_resolution(
        extract_attribute_unquoted(attrs.as_str(), "RESOLUTION"),
    );
    let (width, height) = match size {
        Some((w, h)) => (Some(w), Some(h)),
        None => (None, None),
    };
    SourceVariantInfo {
        bandwidth,
        width,
        height,
        codecs: extract_attribute(line, "CODECS"),
        frame_rate: extract_attribute_unquoted(attrs.as_str(), "FRAME-RATE"),
    }
}

/// The rendition that an `#EXT-X-MEDIA` line announces.
pub open spec fn rendition_of(line: Seq<char>, base: UrlView) -> Result<RenditionView, ErrorView> {
    let uri = match quoted(line, "URI"@) {
        None => Ok(None),
        Some(u) => match resolved(base, u) {
            Ok(r) => Ok(Some(r)),
            Err(e) => Err(e),
        },
    };
    match uri {
        Err(e) => Err(e),
        Ok(u) => Ok(
            RenditionView {
                uri: u,
                name: or_empty(quoted(line, "NAME"@)),
                language: quoted(line, "LANGUAGE"@),
                group_id: or_empty(quoted(line, "GROUP-ID"@)),
                is_default: is_yes(bare(line, "DEFAULT"@)),
            },
        ),
    }
}

/// The text, or the empty text where there is none.
fn text_or_empty(t: Option<String>) -> (s: String)
    ensures
        s@ == or_empty(types::opt_text(t)),
{
    match t {
        Some(s) => s,
        None => {
            let none: String = String::new();
            assert(none@ =~= Seq::empty());
            none
        },
    }
}

/// The rendition that an `#EXT-X-MEDIA` line announces.
fn parse_media(line: &str, base: &Url) -> (r: Result<HlsRenditionInfo, EdgepackError>)
    ensures
        cmaf::outcome_view(r) == rendition_of(line@, base@),
{
    let uri: Option<String> = match extract_attribute(line, "URI") {
        None => None,
        Some(u) => match resolve_url(base, u.as_str()) {
            Ok(r) => Some(r),
            Err(e) => return Err(e),
        },
    };
    Ok(
        HlsRenditionInfo {
            uri,
            name: text_or_empty(extract_attribute(line, "NAME")),
            language: extract_attribute(line, "LANGUAGE"),
            group_id: text_or_empty(extract_attribute(line, "GROUP-ID")),
            is_default: says_yes(extract_attribute_unquoted(line, "DEFAULT")),
        },
    )
}

/// What was read of a master playlist so far: the streams, and the one whose URI is still to
/// come.
pub struct MasterState {
    pub found: MasterView,
    pub pending: Option<SourceVariantView>,
}

impl MasterState {
    /// Nothing read yet.
    pub open spec fn fresh() -> MasterState {
        MasterState {
            found: MasterView {
                variants: Seq::empty(),
                variant_uris: Seq::empty(),
                audio_renditions: Seq::empty(),
                subtitle_renditions: Seq::empty(),
            },
            pending: None,
        }
    }

    /// After one more line, white space at its ends removed.
    pub open spec fn step(self, base: UrlView, line: Seq<char>) -> Result<MasterState, ErrorView> {
        if chars::starts(line, "#EXT-X-STREAM-INF:"@) {
            Ok(MasterState { pending: Some(variant_of(line)), ..self })
        } else if chars::starts(line, "#EXT-X-MEDIA:"@) {
            let kind = bare(line, "TYPE"@);
            match rendition_of(line, base) {
                Err(e) => Err(e),
                Ok(r) => if kind == Some("AUDIO"@) {
                    Ok(
                        MasterState {
                            found: MasterView {
                                audio_renditions: self.found.audio_renditions.push(r),
                                ..self.found
                            },
                            ..self
                        },
                    )
                } else if kind == Some("SUBTITLES"@) || kind == Some("CLOSED-CAPTIONS"@) {
                    Ok(
                        MasterState {
                            found: MasterView {
                                subtitle_renditions: self.found.subtitle_renditions.push(r),
                                ..self.found
                            },
                            ..self
                        },
                    )
                } else {
                    Ok(self)
                },
            }
        } else if line.len() > 0 && line[0] != '#' {
            match self.pending {
                None => Ok(self),
                Some(v) => match resolved(base, line) {
                    Err(e) => Err(e),
                    Ok(u) => Ok(
                        MasterState {
                            found: MasterView {
                                variants: self.found.variants.push(v),
                                variant_uris: self.found.variant_uris.push(u),
                                ..self.found
                            },
                            pending: None,
                        },
                    ),
                },
            }
        } else {
            Ok(self)
        }
    }

    /// What was found after the lines from `i` on.
    pub open spec fn steps(self, base: UrlView, lines: Seq<Seq<char>>, i: int) -> Result<
        MasterView,
        ErrorView,
    >
        decreases lines.len() - i,
    {
        if i < 0 || i >= lines.len() {
            Ok(self.found)
        } else {
            match self.step(base, chars::trimmed(lines[i])) {
                Err(e) => Err(e),
                Ok(next) => next.steps(base, lines, i + 1),
            }
        }
    }
}

/// The variants and renditions that a master playlist lists.
pub open spec fn hls_master(playlist: Seq<char>, manifest_url: Seq<char>) -> Result<
    MasterView,
    ErrorView,
> {
    match base_of(manifest_url) {
        Err(e) => Err(e),
        Ok(base) => if !chars::holds(playlist, "#EXT-X-STREAM-INF"@) {
            manifest_err("not an HLS master playlist \u{2014} no #EXT-X-STREAM-INF found")
        } else {
            MasterState::fresh().steps(base, chars::pieces(playlist, '\n'), 0)
        },
    }
}

/// What was read of a master playlist so far.
struct Master {
    found: HlsMasterPlaylistInfo,
    pending: Option<SourceVariantInfo>,
}

impl View for Master {
    type V = MasterState;

    closed spec fn view(&self) -> MasterState {
        MasterState {
            found: self.found@,
            pending: match self.pending {
                Some(v) => Some(v@),
                None => None,
            },
        }
    }
}

/// How a line changes what was read.
pub open spec fn master_result(
    r: Result<(), EdgepackError>,
    after: MasterState,
    step: Result<MasterState, ErrorView>,
) -> bool {
    match r {
        Ok(_) => step == Ok::<MasterState, ErrorView>(after),
        Err(e) => step == Err::<MasterState, ErrorView>(e@),
    }
}

/// Appends a rendition.
fn add_rendition(list: &mut Vec<HlsRenditionInfo>, r: HlsRenditionInfo)
    ensures
        renditions_view(final(list)@) == renditions_view(old(list)@).push(r@),
{
    list.push(r);
    assert(renditions_view(list@) =~= renditions_view(old(list)@).push(r@));
}

impl Master {
    /// Reads an `#EXT-X-MEDIA` line.
    fn read_media(&mut self, base: &Url, text: &str) -> (r: Result<(), EdgepackError>)
        requires
            chars::starts(text@, "#EXT-X-MEDIA:"@),
            !chars::starts(text@, "#EXT-X-STREAM-INF:"@),
        ensures
            master_result(r, final(self)@, old(self)@.step(base@, text@)),
    {
        let kind: Option<String> = extract_attribute_unquoted(text, "TYPE");
        let rendition: HlsRenditionInfo = match parse_media(text, base) {
            Ok(rendition) => rendition,
            Err(e) => return Err(e),
        };
        if let Some(kind) = kind {
            if text::same_text(kind.as_str(), "AUDIO") {
                add_rendition(&mut self.found.audio_renditions, rendition);
            } else if text::same_text(kind.as_str(), "SUBTITLES") || text::same_text(
                kind.as_str(),
                "CLOSED-CAPTIONS",
            ) {
                add_rendition(&mut self.found.subtitle_renditions, rendition);
            }
        }
        Ok(())
    }

    /// Reads one line, white space at its ends removed.
    fn read_line(&mut self, base: &Url, text: &str) -> (r: Result<(), EdgepackError>)
        ensures
            master_result(r, final(self)@, old(self)@.step(base@, text@)),
    {
        proof {
            reveal_strlit("#EXT-X-STREAM-INF:");
        }
        let chars: Vec<char> = chars::chars_of(text);
        let line: &[char] = chars.as_slice();
        if chars::starts_with(line, "#EXT-X-STREAM-INF:") {
            self.pending = Some(parse_stream_inf(text));
        } else if chars::starts_with(line, "#EXT-X-MEDIA:") {
            return self.read_media(base, text);
        } else if line.len() > 0 && line[0] != '#' && self.pending.is_some() {
            let resolved: String = match resolve_url(base, text) {
                Ok(u) => u,
                Err(e) => return Err(e),
            };
            let mut taken: Option<SourceVariantInfo> = None;
            std::mem::swap(&mut taken, &mut self.pending);
            if let Some(variant) = taken {
                let ghost variants = self.found.variants@;
                let ghost uris = self.found.variant_uris@;
                let ghost v = variant@;
                let ghost u = resolved@;
                self.found.variants.push(variant);
                self.found.variant_uris.push(resolved);
                assert(types::variants_view(self.found.variants@) =~= types::variants_view(
                    variants,
                ).push(v));
                assert(types::texts(self.found.variant_uris@) =~= types::texts(uris).push(u));
            }
        }
        Ok(())
    }
}

/// Parse an HLS master playlist to extract variant and rendition metadata.
///
/// This is separate from `parse_hls_manifest()` which handles media playlists.
/// The master parser extracts metadata only; it does not parse segment data.
///
/// # Errors
///
/// Returns an error if:
/// - The manifest URL is invalid
/// - The manifest is not a master playlist (no `#EXT-X-STREAM-INF`)
#[verifier::loop_isolation(false)]
pub fn parse_hls_master_playlist(manifest_text: &str, manifest_url: &str) -> (r: Result<
    HlsMasterPlaylistInfo,
    EdgepackError,
>)
    ensures
        cmaf::outcome_view(r) == hls_master(manifest_text@, manifest_url@),
{
    let base: Url = match parse_base(manifest_url) {
        Ok(base) => base,
        Err(e) => return Err(e),
    };
    let text: Vec<char> = chars::chars_of(manifest_text);
    if !chars::contains(text.as_slice(), "#EXT-X-STREAM-INF") {
        return Err(
            EdgepackError::manifest(
                "not an HLS master playlist \u{2014} no #EXT-X-STREAM-INF found",
            ),
        );
    }
    let lines: Vec<Vec<char>> = chars::split(text.as_slice(), '\n');
    let ghost views = chars::texts_view(lines@);
    let mut master: Master = Master {
        found: HlsMasterPlaylistInfo {
            variants: Vec::new(),
            variant_uris: Vec::new(),
            audio_renditions: Vec::new(),
            subtitle_renditions: Vec::new(),
        },
        pending: None,
    };
    proof {
        let fresh = MasterState::fresh().found;
        assert(master.found@.variants =~= fresh.variants);
        assert(master.found@.variant_uris =~= fresh.variant_uris);
        assert(master.found@.audio_renditions =~= fresh.audio_renditions);
        assert(master.found@.subtitle_renditions =~= fresh.subtitle_renditions);
    }
    let mut i: usize = 0;
    while i < lines.len()
        invariant
            i <= lines.len(),
            MasterState::fresh().steps(base@, views, 0) == master@.steps(base@, views, i as int),
        decreases lines.len() - i,
    {
        assert(views[i as int] == lines@[i as int]@);
        let line: String = chars::string_of(chars::trim(lines[i].as_slice()));
        match master.read_line(&base, line.as_str()) {
            Ok(_) => {},
            Err(e) => {
                return Err(e);
            },
        }
        i = i + 1;
    }
    Ok(master.found)
}

/// Reading keeps one duration for every segment.
proof fn lemma_playlist_parallel(
    p: PlaylistView,
    base: UrlView,
    lines: Seq<Seq<char>>,
    i: int,
)
    requires
        p.urls.len() == p.durations.len(),
    ensures
        p.steps(base, lines, i) matches Ok(q) ==> q.urls.len() == q.durations.len(),
    decreases lines.len() - i,
{
    if 0 <= i < lines.len() {
        if let Ok(next) = p.step(base, chars::trimmed(lines[i])) {
            lemma_playlist_parallel(next, base, lines, i + 1);
        }
    }
}

proof fn lemma_master_parallel(m: MasterState, base: UrlView, lines: Seq<Seq<char>>, i: int)
    requires
        m.found.variants.len() == m.found.variant_uris.len(),
    ensures
        m.steps(base, lines, i) matches Ok(f) ==> f.variants.len() == f.variant_uris.len(),
    decreases lines.len() - i,
{
    if 0 <= i < lines.len() {
        if let Ok(next) = m.step(base, chars::trimmed(lines[i])) {
            lemma_master_parallel(next, base, lines, i + 1);
        }
    }
}

/// The URIs of a master playlist are parallel to its variants.
pub proof fn variant_uris_parallel(playlist: Seq<char>, manifest_url: Seq<char>)
    ensures
        hls_master(playlist, manifest_url) matches Ok(f) ==> f.variants.len()
            == f.variant_uris.len(),
{
    if let Ok(base) = base_of(manifest_url) {
        lemma_master_parallel(MasterState::fresh(), base, chars::pieces(playlist, '\n'), 0);
    }
}

/// The durations of a source manifest are parallel to its segments.
pub proof fn segment_durations_parallel(playlist: Seq<char>, manifest_url: Seq<char>)
    ensures
        hls_source(playlist, manifest_url) matches Ok(m) ==> m.segment_urls.len()
            == m.segment_durations.len(),
{
    if let Ok(base) = base_of(manifest_url) {
        lemma_playlist_parallel(
            PlaylistView::fresh(),
            base,
            chars::pieces(playlist, '\n'),
            0,
        );
    }
}

/// A text is read as a media playlist or as a master playlist, never as both.
pub proof fn media_or_master(playlist: Seq<char>, manifest_url: Seq<char>)
    ensures
        !(hls_source(playlist, manifest_url) is Ok && hls_master(playlist, manifest_url) is Ok),
{
}

} // verus!
