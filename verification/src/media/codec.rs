//! Tracks, their codecs and their keys.

use crate::bytes;
use crate::error::{EdgepackError, ErrorView};
use crate::media::box_type;
use crate::media::cmaf;
use crate::media::cmaf::BoxHeader;
use crate::media::{same_code, FourCC, TrackType};
use crate::text;
use vstd::prelude::*;

verus! {

/// Metadata extracted from a single track in an init segment.
#[derive(Debug, Clone)]
pub struct TrackInfo {
    /// Track type (Video, Audio, Subtitle, Unknown).
    pub track_type: TrackType,
    /// Track ID from tkhd box.
    pub track_id: u32,
    /// RFC 6381 codec string (e.g., "avc1.64001f", "mp4a.40.2").
    pub codec_string: String,
    /// Media timescale from mdhd box.
    pub timescale: u32,
    /// Default KID from tenc box, if the track is encrypted.
    pub kid: Option<[u8; 16]>,
}

/// The content of a [`TrackInfo`].
pub struct TrackView {
    pub track_type: TrackType,
    pub track_id: u32,
    pub codec_string: Seq<char>,
    pub timescale: u32,
    pub kid: Option<Seq<u8>>,
}

/// The bytes of an optional key identifier.
pub open spec fn opt_kid(kid: Option<[u8; 16]>) -> Option<Seq<u8>> {
    match kid {
        Some(k) => Some(k@),
        None => None,
    }
}

impl View for TrackInfo {
    type V = TrackView;

    open spec fn view(&self) -> TrackView {
        TrackView {
            track_type: self.track_type,
            track_id: self.track_id,
            codec_string: self.codec_string@,
            timescale: self.timescale,
            kid: opt_kid(self.kid),
        }
    }
}

/// The contents of a list of tracks.
pub open spec fn tracks_view(tracks: Seq<TrackInfo>) -> Seq<TrackView> {
    tracks.map_values(|t: TrackInfo| t@)
}

/// Whether two key identifiers are the same.
pub fn same_kid(a: &[u8; 16], b: &[u8; 16]) -> (same: bool)
    ensures
        same == (a@ == b@),
{
    bytes::same_bytes(a.as_slice(), b.as_slice())
}

/// Whether `kid` is in the list.
pub fn has_kid(kids: &Vec<[u8; 16]>, kid: &[u8; 16]) -> (found: bool)
    ensures
        found == cmaf::kids_view(kids@).contains(kid@),
{
    let mut i: usize = 0;
    while i < kids.len()
        invariant
            i <= kids.len(),
            forall|k: int| 0 <= k < i ==> cmaf::kids_view(kids@)[k] != kid@,
        decreases kids.len() - i,
    {
        assert(cmaf::kids_view(kids@)[i as int] == kids@[i as int]@);
        if same_kid(&kids[i], kid) {
            return true;
        }
        i = i + 1;
    }
    false
}

/// `kids` with `kid` at the end, unless it is already there.
pub open spec fn with_kid(kids: Seq<Seq<u8>>, kid: Seq<u8>) -> Seq<Seq<u8>> {
    if kids.contains(kid) {
        kids
    } else {
        kids.push(kid)
    }
}

/// Adds `kid` to the list unless it is already there.
pub fn add_kid(kids: &mut Vec<[u8; 16]>, kid: &[u8; 16])
    ensures
        cmaf::kids_view(final(kids)@) == with_kid(cmaf::kids_view(old(kids)@), kid@),
{
    if !has_kid(kids, kid) {
        kids.push(*kid);
        assert(cmaf::kids_view(kids@) =~= cmaf::kids_view(old(kids)@).push(kid@));
    }
}

/// Maps track types to key IDs for per-track keying.
#[derive(Debug, Clone)]
pub struct TrackKeyMapping {
    entries: Vec<(TrackType, [u8; 16])>,
}

/// The key of the first entry with the type `t` at or after position `i`.
pub open spec fn lookup(entries: Seq<(TrackType, Seq<u8>)>, t: TrackType, i: int) -> Option<Seq<u8>>
    decreases entries.len() - i,
{
    if i < 0 || i >= entries.len() {
        None
    } else if entries[i].0 == t {
        Some(entries[i].1)
    } else {
        lookup(entries, t, i + 1)
    }
}

/// The key for a track: the one mapped to its type, else the first one.
pub open spec fn key_for(entries: Seq<(TrackType, Seq<u8>)>, t: TrackType) -> Option<Seq<u8>> {
    match lookup(entries, t, 0) {
        Some(k) => Some(k),
        None => if entries.len() > 0 {
            Some(entries[0].1)
        } else {
            None
        },
    }
}

/// The distinct keys of the first `n` entries, in order of first use.
pub open spec fn distinct_kids(entries: Seq<(TrackType, Seq<u8>)>, n: nat) -> Seq<Seq<u8>>
    decreases n,
{
    if n == 0 {
        Seq::empty()
    } else {
        with_kid(distinct_kids(entries, (n - 1) as nat), entries[n - 1].1)
    }
}

/// The mapping that the first `n` tracks give: for each type, the key of the first
/// track of that type that has one.
pub open spec fn mapping_of(tracks: Seq<TrackView>, n: nat) -> Seq<(TrackType, Seq<u8>)>
    decreases n,
{
    if n == 0 {
        Seq::empty()
    } else {
        let before = mapping_of(tracks, (n - 1) as nat);
        match tracks[n - 1].kid {
            Some(kid) => if lookup(before, tracks[n - 1].track_type, 0) is Some {
                before
            } else {
                before.push((tracks[n - 1].track_type, kid))
            },
            None => before,
        }
    }
}

/// The contents of a list of mapping entries.
pub open spec fn mapping_view(entries: Seq<(TrackType, [u8; 16])>) -> Seq<(TrackType, Seq<u8>)> {
    entries.map_values(|e: (TrackType, [u8; 16])| (e.0, e.1@))
}

impl View for TrackKeyMapping {
    type V = Seq<(TrackType, Seq<u8>)>;

    closed spec fn view(&self) -> Seq<(TrackType, Seq<u8>)> {
        mapping_view(self.entries@)
    }
}

impl TrackKeyMapping {
    /// Create a mapping where all tracks use the same KID.
    pub fn single(kid: [u8; 16]) -> (m: TrackKeyMapping)
        ensures
            m@ == seq![
                (TrackType::Video, kid@),
                (TrackType::Audio, kid@),
                (TrackType::Subtitle, kid@),
            ],
    {
        let mut entries: Vec<(TrackType, [u8; 16])> = Vec::new();
        entries.push((TrackType::Video, kid));
        entries.push((TrackType::Audio, kid));
        entries.push((TrackType::Subtitle, kid));
        let m: TrackKeyMapping = TrackKeyMapping { entries };
        assert(m@ =~= seq![
            (TrackType::Video, kid@),
            (TrackType::Audio, kid@),
            (TrackType::Subtitle, kid@),
        ]);
        m
    }

    /// Create a mapping from extracted track info.
    ///
    /// Uses each track's existing KID if present. When tracks share the same KID,
    /// only one entry per track type is stored.
    pub fn from_tracks(tracks: &[TrackInfo]) -> (m: TrackKeyMapping)
        ensures
            m@ == mapping_of(tracks_view(tracks@), tracks@.len()),
    {
        let mut entries: Vec<(TrackType, [u8; 16])> = Vec::new();
        let mut i: usize = 0;
        assert(mapping_view(entries@) =~= Seq::empty());
        while i < tracks.len()
            invariant
                i <= tracks.len(),
                mapping_view(entries@) == mapping_of(tracks_view(tracks@), i as nat),
            decreases tracks.len() - i,
        {
            assert(tracks_view(tracks@)[i as int] == tracks@[i as int]@);
            if let Some(kid) = tracks[i].kid {
                let kind: TrackType = tracks[i].track_type;
                if find_kid(&entries, kind).is_none() {
                    let ghost before = entries@;
                    entries.push((kind, kid));
                    assert(mapping_view(entries@) =~= mapping_view(before).push((kind, kid@)));
                }
            }
            i = i + 1;
        }
        TrackKeyMapping { entries }
    }

    /// Create a mapping with explicit per-type KIDs.
    pub fn per_type(video_kid: [u8; 16], audio_kid: [u8; 16]) -> (m: TrackKeyMapping)
        ensures
            m@ == seq![(TrackType::Video, video_kid@), (TrackType::Audio, audio_kid@)],
    {
        let mut entries: Vec<(TrackType, [u8; 16])> = Vec::new();
        entries.push((TrackType::Video, video_kid));
        entries.push((TrackType::Audio, audio_kid));
        let m: TrackKeyMapping = TrackKeyMapping { entries };
        assert(m@ =~= seq![(TrackType::Video, video_kid@), (TrackType::Audio, audio_kid@)]);
        m
    }

    /// Look up the KID for a given track type.
    ///
    /// Falls back to the first available KID if no specific mapping exists.
    pub fn kid_for_track(&self, track_type: TrackType) -> (kid: Option<&[u8; 16]>)
        ensures
            match (kid, key_for(self@, track_type)) {
                (Some(k), Some(want)) => k@ == want,
                (None, None) => true,
                _ => false,
            },
    {
        match find_kid(&self.entries, track_type) {
            Some(i) => Some(&self.entries[i].1),
            None => {
                if self.entries.len() > 0 {
                    Some(&self.entries[0].1)
                } else {
                    None
                }
            },
        }
    }

    /// Return all unique KIDs in the mapping.
    pub fn all_kids(&self) -> (kids: Vec<[u8; 16]>)
        ensures
            cmaf::kids_view(kids@) == distinct_kids(self@, self@.len()),
    {
        let mut kids: Vec<[u8; 16]> = Vec::new();
        let mut i: usize = 0;
        assert(cmaf::kids_view(kids@) =~= Seq::empty());
        while i < self.entries.len()
            invariant
                i <= self.entries.len(),
                cmaf::kids_view(kids@) == distinct_kids(self@, i as nat),
            decreases self.entries.len() - i,
        {
            assert(self@[i as int].1 == self.entries@[i as int].1@);
            add_kid(&mut kids, &self.entries[i].1);
            i = i + 1;
        }
        kids
    }

    /// Return all entries in the mapping.
    pub fn entries(&self) -> (entries: &[(TrackType, [u8; 16])])
        ensures
            mapping_view(entries@) == self@,
    {
        self.entries.as_slice()
    }

    /// Whether this mapping has different KIDs for different track types.
    pub fn is_multi_key(&self) -> (yes: bool)
        ensures
            yes == (distinct_kids(self@, self@.len()).len() > 1),
    {
        let kids: Vec<[u8; 16]> = self.all_kids();
        assert(cmaf::kids_view(kids@).len() == kids@.len());
        kids.len() > 1
    }
}

/// The position of the first entry with the given type.
fn find_kid(entries: &Vec<(TrackType, [u8; 16])>, track_type: TrackType) -> (at: Option<usize>)
    ensures
        match at {
            Some(i) => i < entries.len() && lookup(mapping_view(entries@), track_type, 0) == Some(
                entries@[i as int].1@,
            ),
            None => lookup(mapping_view(entries@), track_type, 0) is None,
        },
{
    let mut i: usize = 0;
    while i < entries.len()
        invariant
            i <= entries.len(),
            lookup(mapping_view(entries@), track_type, 0) == lookup(
                mapping_view(entries@),
                track_type,
                i as int,
            ),
        decreases entries.len() - i,
    {
        assert(mapping_view(entries@)[i as int] == (entries@[i as int].0, entries@[i as int].1@));
        if entries[i].0 == track_type {
            return Some(i);
        }
        i = i + 1;
    }
    None
}


/// Whether the four bytes at `pos + 4` are the box type `code`.
pub open spec fn code_at(p: Seq<u8>, pos: int, code: Seq<u8>) -> bool {
    pos + 8 <= p.len() && p.subrange(pos + 4, pos + 8) == code
}

/// The first position at or after `pos` where a box of type `code` seems to start.
pub open spec fn find_code(p: Seq<u8>, pos: int, code: Seq<u8>) -> Option<int>
    decreases p.len() - pos,
{
    if pos < 0 || pos + 8 > p.len() {
        None
    } else if code_at(p, pos, code) {
        Some(pos)
    } else {
        find_code(p, pos + 1, code)
    }
}

/// The payload of the box at `pos`, if its size field leaves room for a header and the
/// box fits.
pub open spec fn payload_at(p: Seq<u8>, pos: int) -> Option<Seq<u8>> {
    let size = bytes::be32(p, pos);
    if size >= 8 && pos + size <= p.len() {
        Some(p.subrange(pos + 8, pos + size))
    } else {
        None
    }
}

/// The payload of the first fitting box of type `code` at or after `pos`, wherever it
/// starts.
pub open spec fn config_box(p: Seq<u8>, pos: int, code: Seq<u8>) -> Option<Seq<u8>>
    decreases p.len() - pos,
{
    if pos < 0 || pos + 8 > p.len() {
        None
    } else if code_at(p, pos, code) && payload_at(p, pos) is Some {
        payload_at(p, pos)
    } else {
        config_box(p, pos + 1, code)
    }
}

/// The bytes behind an optional slice.
pub open spec fn opt_slice(o: Option<&[u8]>) -> Option<Seq<u8>> {
    match o {
        Some(v) => Some(v@),
        None => None,
    }
}

/// The payload of the box at `pos`.
fn read_payload_at<'a>(p: &'a [u8], pos: usize) -> (payload: Option<&'a [u8]>)
    requires
        pos + 8 <= p.len(),
    ensures
        opt_slice(payload) == payload_at(p@, pos as int),
{
    let size: u32 = bytes::read_u32(p, pos);
    if size >= 8 && size as u64 <= (p.len() - pos) as u64 {
        Some(&p[pos + 8..pos + size as usize])
    } else {
        None
    }
}

/// Whether the four bytes at `pos + 4` are the given type.
fn is_code_at(p: &[u8], pos: usize, code: &FourCC) -> (yes: bool)
    requires
        pos + 8 <= p.len(),
    ensures
        yes == code_at(p@, pos as int, code@),
{
    same_code(&bytes::read_4(p, pos + 4), code)
}

/// Find a codec configuration box (avcC, hvcC, vpcC, av1C, esds) within a sample entry.
///
/// The sample entry has a format-dependent fixed prefix before child boxes.
/// We scan for the target FourCC pattern.
pub fn find_config_box<'a>(entry_payload: &'a [u8], config_type: &[u8; 4]) -> (found: Option<
    &'a [u8],
>)
    ensures
        opt_slice(found) == config_box(entry_payload@, 0, config_type@),
{
    let mut pos: usize = 0;
    while entry_payload.len() >= 8 && pos <= entry_payload.len() - 8
        invariant
            pos <= entry_payload.len(),
            config_box(entry_payload@, 0, config_type@) == config_box(
                entry_payload@,
                pos as int,
                config_type@,
            ),
        decreases entry_payload.len() - pos,
    {
        if is_code_at(entry_payload, pos, config_type) {
            let payload: Option<&'a [u8]> = read_payload_at(entry_payload, pos);
            if payload.is_some() {
                return payload;
            }
        }
        pos = pos + 1;
    }
    None
}

/// The payload of the first sinf box in a sample entry, if it fits.
pub open spec fn entry_sinf(p: Seq<u8>) -> Option<Seq<u8>> {
    match find_code(p, 0, box_type::SINF@) {
        Some(pos) => payload_at(p, pos),
        None => None,
    }
}

/// Finds the payload of the first sinf box in a sample entry.
fn find_sinf_in_entry<'a>(entry_payload: &'a [u8]) -> (found: Option<&'a [u8]>)
    ensures
        opt_slice(found) == entry_sinf(entry_payload@),
{
    let mut pos: usize = 0;
    while entry_payload.len() >= 8 && pos <= entry_payload.len() - 8
        invariant
            pos <= entry_payload.len(),
            find_code(entry_payload@, 0, box_type::SINF@) == find_code(
                entry_payload@,
                pos as int,
                box_type::SINF@,
            ),
        decreases entry_payload.len() - pos,
    {
        if is_code_at(entry_payload, pos, &box_type::SINF) {
            return read_payload_at(entry_payload, pos);
        }
        pos = pos + 1;
    }
    None
}

/// The payload of the first child box of the given type.
pub open spec fn child_body(s: Seq<u8>, code: Seq<u8>) -> Option<Seq<u8>> {
    match cmaf::child(s, code) {
        Some(h) => Some(cmaf::box_body(s, h)),
        None => None,
    }
}

/// The payload of the first child box of the given type.
pub fn find_child_body<'a>(data: &'a [u8], code: &FourCC) -> (body: Option<&'a [u8]>)
    ensures
        opt_slice(body) == child_body(data@, code@),
{
    match cmaf::find_child_box(data, code) {
        Some(h) => Some(cmaf::box_payload(data, &h)),
        None => None,
    }
}

/// The key identifier in the sinf → schi → tenc box of a sample entry.
pub open spec fn entry_kid(p: Seq<u8>) -> Option<Seq<u8>> {
    match entry_sinf(p) {
        None => None,
        Some(sinf) => match child_body(sinf, box_type::SCHI@) {
            None => None,
            Some(schi) => match child_body(schi, box_type::TENC@) {
                None => None,
                Some(tenc) => match cmaf::tenc_of(tenc) {
                    Ok(t) => Some(t.default_kid),
                    Err(_) => None,
                },
            },
        },
    }
}

/// Find the KID from a sinf → schi → tenc box within a sample entry's payload.
pub fn find_kid_in_entry(entry_payload: &[u8]) -> (kid: Option<[u8; 16]>)
    ensures
        opt_kid(kid) == entry_kid(entry_payload@),
{
    match find_sinf_in_entry(entry_payload) {
        None => None,
        Some(sinf) => match find_child_body(sinf, &box_type::SCHI) {
            None => None,
            Some(schi) => match find_child_body(schi, &box_type::TENC) {
                None => None,
                Some(tenc) => match cmaf::parse_tenc(tenc) {
                    Ok(t) => Some(t.default_kid),
                    Err(_) => None,
                },
            },
        },
    }
}

/// The original format in the sinf → frma box of a sample entry.
pub open spec fn entry_format(p: Seq<u8>) -> Option<Seq<u8>> {
    match entry_sinf(p) {
        None => None,
        Some(sinf) => match child_body(sinf, box_type::FRMA@) {
            None => None,
            Some(frma) => if frma.len() >= 4 {
                Some(frma.subrange(0, 4))
            } else {
                None
            },
        },
    }
}

/// Find the original format FourCC from sinf → frma inside a sample entry.
pub fn find_original_format_in_entry(entry_payload: &[u8]) -> (format: Option<[u8; 4]>)
    ensures
        match format {
            Some(f) => entry_format(entry_payload@) == Some(f@),
            None => entry_format(entry_payload@) is None,
        },
{
    match find_sinf_in_entry(entry_payload) {
        None => None,
        Some(sinf) => match find_child_body(sinf, &box_type::FRMA) {
            None => None,
            Some(frma) => if frma.len() >= 4 {
                Some(bytes::read_4(frma, 0))
            } else {
                None
            },
        },
    }
}

pub open spec fn fourcc(a: u8, b: u8, c: u8, d: u8) -> Seq<u8> {
    seq![a, b, c, d]
}

/// Whether a code consists of the four given bytes.
fn is_fourcc(code: &[u8; 4], a: u8, b: u8, c: u8, d: u8) -> (same: bool)
    ensures
        same == (code@ == fourcc(a, b, c, d)),
{
    let same: bool = code[0] == a && code[1] == b && code[2] == c && code[3] == d;
    if same {
        assert(code@ =~= fourcc(a, b, c, d));
    }
    same
}

/// Whether a code is encv, enca, enct or encs.
pub open spec fn encrypted_entry(code: Seq<u8>) -> bool {
    code == fourcc(0x65, 0x6e, 0x63, 0x76) || code == fourcc(0x65, 0x6e, 0x63, 0x61) || code
        == fourcc(0x65, 0x6e, 0x63, 0x74) || code == fourcc(0x65, 0x6e, 0x63, 0x73)
}

/// Check if a sample entry FourCC is an encrypted type.
pub fn is_encrypted_entry(code: &[u8; 4]) -> (yes: bool)
    ensures
        yes == encrypted_entry(code@),
{
    is_fourcc(code, 0x65, 0x6e, 0x63, 0x76) || is_fourcc(code, 0x65, 0x6e, 0x63, 0x61) || is_fourcc(
        code,
        0x65,
        0x6e,
        0x63,
        0x74,
    ) || is_fourcc(code, 0x65, 0x6e, 0x63, 0x73)
}

/// "avcC"
pub open spec fn avcc_code() -> Seq<u8> {
    fourcc(0x61, 0x76, 0x63, 0x43)
}

/// "hvcC"
pub open spec fn hvcc_code() -> Seq<u8> {
    fourcc(0x68, 0x76, 0x63, 0x43)
}

/// "esds"
pub open spec fn esds_code() -> Seq<u8> {
    fourcc(0x65, 0x73, 0x64, 0x73)
}

/// "vpcC"
pub open spec fn vpcc_code() -> Seq<u8> {
    fourcc(0x76, 0x70, 0x63, 0x43)
}

/// "av1C"
pub open spec fn av1c_code() -> Seq<u8> {
    fourcc(0x61, 0x76, 0x31, 0x43)
}

/// The H.264 codec string: `{prefix}.{profile:02x}{constraints:02x}{level:02x}`, or the
/// bare prefix without a configuration.
pub open spec fn avc_codec(prefix: Seq<char>, p: Seq<u8>) -> Seq<char> {
    match config_box(p, 0, avcc_code()) {
        Some(c) => if c.len() >= 4 {
            prefix + "."@ + text::hex2(c[1]) + text::hex2(c[2]) + text::hex2(c[3])
        } else {
            prefix
        },
        None => prefix,
    }
}

/// Extract H.264 codec string from avcC box.
/// Format: `avc1.{profile_idc:02x}{constraint_set_flags:02x}{level_idc:02x}`
pub fn extract_avc_codec(prefix: &str, entry_payload: &[u8]) -> (codec: String)
    ensures
        codec@ == avc_codec(prefix@, entry_payload@),
{
    let code: FourCC = [0x61, 0x76, 0x63, 0x43];
    assert(code@ =~= avcc_code());
    let mut out: String = prefix.to_owned();
    if let Some(avcc) = find_config_box(entry_payload, &code) {
        if avcc.len() >= 4 {
            out.push_str(".");
            text::put_hex2(&mut out, avcc[1]);
            text::put_hex2(&mut out, avcc[2]);
            text::put_hex2(&mut out, avcc[3]);
        }
    }
    out
}

/// How many of the first `n` bytes are left when trailing zeros are dropped.
pub open spec fn trimmed_len(s: Seq<u8>, n: nat) -> nat
    decreases n,
{
    if n == 0 || s[n - 1] != 0 {
        n
    } else {
        trimmed_len(s, (n - 1) as nat)
    }
}

/// The first `n` bytes in upper-case hexadecimal, separated by dots.
pub open spec fn dotted_hex(s: Seq<u8>, n: nat) -> Seq<char>
    decreases n,
{
    if n == 0 {
        Seq::empty()
    } else if n == 1 {
        text::hex_upper(s[0] as nat)
    } else {
        dotted_hex(s, (n - 1) as nat) + "."@ + text::hex_upper(s[n - 1] as nat)
    }
}

/// Build HEVC constraint indicator string from 6 bytes.
/// Each byte is hex-encoded, trailing zero bytes are omitted, separated by dots.
pub fn build_hevc_constraint_string(flags: &[u8]) -> (out: String)
    ensures
        out@ == dotted_hex(flags@, trimmed_len(flags@, flags@.len())),
{
    let mut n: usize = flags.len();
    while n > 0 && flags[n - 1] == 0
        invariant
            n <= flags.len(),
            trimmed_len(flags@, flags@.len()) == trimmed_len(flags@, n as nat),
        decreases n,
    {
        n = n - 1;
    }
    let mut out: String = String::new();
    let mut i: usize = 0;
    while i < n
        invariant
            i <= n <= flags.len(),
            out@ == dotted_hex(flags@, i as nat),
        decreases n - i,
    {
        if i > 0 {
            out.push_str(".");
        }
        text::put_hex_upper(&mut out, flags[i] as u64);
        i = i + 1;
        assert(out@ =~= dotted_hex(flags@, i as nat));
    }
    out
}

/// The letter for a profile space.
pub open spec fn space_prefix(space: int) -> Seq<char> {
    if space == 1 {
        "A"@
    } else if space == 2 {
        "B"@
    } else if space == 3 {
        "C"@
    } else {
        ""@
    }
}

/// The HEVC codec string: `{prefix}.{space}{profile}.{compatibility:X}.{tier}{level}.{constraints}`,
/// or the bare prefix without a configuration.
pub open spec fn hevc_codec(prefix: Seq<char>, p: Seq<u8>) -> Seq<char> {
    match config_box(p, 0, hvcc_code()) {
        Some(c) => if c.len() >= 13 {
            let flags = c.subrange(6, 12);
            prefix + "."@ + space_prefix(c[1] as int / 64) + text::dec((c[1] % 32) as nat) + "."@
                + text::hex_upper(bytes::be32(c, 2) as nat) + "."@ + (if (c[1] / 32) % 2 == 1 {
                "H"@
            } else {
                "L"@
            }) + text::dec(c[12] as nat) + "."@ + dotted_hex(flags, trimmed_len(flags, 6))
        } else {
            prefix
        },
        None => prefix,
    }
}

/// Extract HEVC codec string from hvcC box.
pub fn extract_hevc_codec(prefix: &str, entry_payload: &[u8]) -> (codec: String)
    ensures
        codec@ == hevc_codec(prefix@, entry_payload@),
{
    let code: FourCC = [0x68, 0x76, 0x63, 0x43];
    assert(code@ =~= hvcc_code());
    let mut out: String = prefix.to_owned();
    if let Some(hvcc) = find_config_box(entry_payload, &code) {
        if hvcc.len() >= 13 {
            let profile: u8 = hvcc[1];
            let space: u8 = profile / 64;
            out.push_str(".");
            out.push_str(
                if space == 1 {
                    "A"
                } else if space == 2 {
                    "B"
                } else if space == 3 {
                    "C"
                } else {
                    ""
                },
            );
            text::put_dec(&mut out, (profile % 32) as u64);
            out.push_str(".");
            text::put_hex_upper(&mut out, bytes::read_u32(hvcc, 2) as u64);
            out.push_str(".");
            out.push_str(
                if (profile / 32) % 2 == 1 {
                    "H"
                } else {
                    "L"
                },
            );
            text::put_dec(&mut out, hvcc[12] as u64);
            out.push_str(".");
            let constraints: String = build_hevc_constraint_string(&hvcc[6..12]);
            out.push_str(constraints.as_str());
        }
    }
    out
}

/// The size in a descriptor header from byte `i` on, with what was read before it: seven
/// bits per byte, at most four bytes. Gives the size and the number of bytes read.
pub open spec fn descriptor_size(s: Seq<u8>, i: int, size: int) -> (int, int)
    decreases 4 - i,
{
    if i < 0 || i >= 4 || i >= s.len() {
        (size, i)
    } else if s[i] < 128 {
        (size * 128 + s[i] % 128, i + 1)
    } else {
        descriptor_size(s, i + 1, size * 128 + s[i] % 128)
    }
}

/// Parse variable-length descriptor size (up to 4 bytes, each with continuation bit).
pub fn parse_descriptor_size(data: &[u8]) -> (r: (usize, usize))
    ensures
        (r.0 as int, r.1 as int) == descriptor_size(data@, 0, 0),
        r.1 <= 4,
        r.1 <= data.len(),
{
    let mut size: u32 = 0;
    let mut i: usize = 0;
    while i < 4 && i < data.len()
        invariant
            i <= 4,
            i <= data.len(),
            i == 0 ==> size == 0,
            i == 1 ==> size < 128,
            i == 2 ==> size < 16384,
            i == 3 ==> size < 2097152,
            i == 4 ==> size < 268435456,
            descriptor_size(data@, 0, 0) == descriptor_size(data@, i as int, size as int),
        decreases 4 - i,
    {
        let b: u8 = data[i];
        size = size * 128 + (b % 128) as u32;
        i = i + 1;
        if b < 128 {
            return (size as usize, i);
        }
    }
    (size as usize, i)
}

/// The audio object type in the first usable DecoderSpecificInfo (tag 5) at or after
/// `i`: the first five bits of its content, or six more when those are all ones.
pub open spec fn object_type(d: Seq<u8>, i: int) -> Option<u8>
    decreases d.len() - i,
{
    if i < 0 || i >= d.len() {
        None
    } else {
        let (size, n) = descriptor_size(d.skip(i + 1), 0, 0);
        let at = i + 1 + n;
        if d[i] == 5 && at < d.len() && size > 0 {
            if d[at] / 8 == 31 && at + 1 < d.len() {
                Some((32 + (d[at] % 8) * 8 + d[at + 1] / 32) as u8)
            } else {
                Some(d[at] / 8)
            }
        } else {
            object_type(d, i + 1)
        }
    }
}

/// The audio object type in an esds payload.
pub open spec fn esds_object_type(s: Seq<u8>) -> Option<u8> {
    if s.len() < 5 {
        None
    } else {
        object_type(s.skip(4), 0)
    }
}

/// Parse audio object type from an esds box payload.
///
/// The esds box contains nested descriptors. We look for the DecoderConfigDescriptor
/// and extract the audio object type from the AudioSpecificConfig.
#[verifier::loop_isolation(false)]
pub fn parse_esds_audio_object_type(esds: &[u8]) -> (aot: Option<u8>)
    ensures
        aot == esds_object_type(esds@),
{
    if esds.len() < 5 {
        return None;
    }
    let data: &[u8] = &esds[4..esds.len()];
    assert(data@ =~= esds@.skip(4));
    let mut i: usize = 0;
    while i < data.len()
        invariant
            i <= data.len(),
            object_type(data@, 0) == object_type(data@, i as int),
        decreases data.len() - i,
    {
        if data[i] == 5 {
            let rest: &[u8] = &data[i + 1..data.len()];
            assert(rest@ =~= data@.skip(i + 1));
            let (size, n) = parse_descriptor_size(rest);
            let at: usize = i + 1 + n;
            if at < data.len() && size > 0 {
                let first: u8 = data[at];
                if first / 8 == 31 {
                    if at < data.len() - 1 {
                        return Some(32 + (first % 8) * 8 + data[at + 1] / 32);
                    }
                }
                return Some(first / 8);
            }
        }
        i = i + 1;
    }
    None
}

/// The AAC codec string: `mp4a.40.{audioObjectType}`, with AAC-LC by default.
pub open spec fn aac_codec(p: Seq<u8>) -> Seq<char> {
    match config_box(p, 0, esds_code()) {
        Some(esds) => match esds_object_type(esds) {
            Some(aot) => "mp4a.40."@ + text::dec(aot as nat),
            None => "mp4a.40.2"@,
        },
        None => "mp4a.40.2"@,
    }
}

/// Extract AAC codec string from esds box.
/// Format: `mp4a.40.{audioObjectType}`
pub fn extract_aac_codec(entry_payload: &[u8]) -> (codec: String)
    ensures
        codec@ == aac_codec(entry_payload@),
{
    let code: FourCC = [0x65, 0x73, 0x64, 0x73];
    assert(code@ =~= esds_code());
    if let Some(esds) = find_config_box(entry_payload, &code) {
        if let Some(aot) = parse_esds_audio_object_type(esds) {
            let mut out: String = "mp4a.40.".to_owned();
            text::put_dec(&mut out, aot as u64);
            return out;
        }
    }
    "mp4a.40.2".to_owned()
}

/// The VP9 codec string: `vp09.{profile:02}.{level:02}.{bitDepth:02}`.
pub open spec fn vp9_codec(p: Seq<u8>) -> Seq<char> {
    match config_box(p, 0, vpcc_code()) {
        Some(c) => if c.len() >= 8 {
            "vp09."@ + text::dec_padded(c[4] as nat, 2) + "."@ + text::dec_padded(c[5] as nat, 2)
                + "."@ + text::dec_padded((c[6] / 16) as nat, 2)
        } else {
            "vp09"@
        },
        None => "vp09"@,
    }
}

/// Extract VP9 codec string from vpcC box.
/// Format: `vp09.{profile:02}.{level:02}.{bitDepth:02}`
pub fn extract_vp9_codec(entry_payload: &[u8]) -> (codec: String)
    ensures
        codec@ == vp9_codec(entry_payload@),
{
    let code: FourCC = [0x76, 0x70, 0x63, 0x43];
    assert(code@ =~= vpcc_code());
    if let Some(vpcc) = find_config_box(entry_payload, &code) {
        if vpcc.len() >= 8 {
            let mut out: String = "vp09.".to_owned();
            text::put_dec_padded(&mut out, vpcc[4] as u64, 2);
            out.push_str(".");
            text::put_dec_padded(&mut out, vpcc[5] as u64, 2);
            out.push_str(".");
            text::put_dec_padded(&mut out, (vpcc[6] / 16) as u64, 2);
            return out;
        }
    }
    "vp09".to_owned()
}

/// The bit depth that the third byte of an av1C payload gives.
pub open spec fn av1_depth(b: u8) -> nat {
    if (b / 64) % 2 == 1 {
        if (b / 32) % 2 == 1 {
            12
        } else {
            10
        }
    } else {
        8
    }
}

/// The AV1 codec string: `av01.{profile}.{level:02}{tier}.{bitDepth:02}`.
pub open spec fn av1_codec(p: Seq<u8>) -> Seq<char> {
    match config_box(p, 0, av1c_code()) {
        Some(c) => if c.len() >= 4 {
            "av01."@ + text::dec((c[1] / 32) as nat) + "."@ + text::dec_padded(
                (c[1] % 32) as nat,
                2,
            ) + (if c[2] >= 128 {
                "H"@
            } else {
                "M"@
            }) + "."@ + text::dec_padded(av1_depth(c[2]), 2)
        } else {
            "av01"@
        },
        None => "av01"@,
    }
}

/// Extract AV1 codec string from av1C box.
/// Format: `av01.{profile}.{level:02}{tier}.{bitDepth:02}`
pub fn extract_av1_codec(entry_payload: &[u8]) -> (codec: String)
    ensures
        codec@ == av1_codec(entry_payload@),
{
    let code: FourCC = [0x61, 0x76, 0x31, 0x43];
    assert(code@ =~= av1c_code());
    if let Some(av1c) = find_config_box(entry_payload, &code) {
        if av1c.len() >= 4 {
            let mut out: String = "av01.".to_owned();
            text::put_dec(&mut out, (av1c[1] / 32) as u64);
            out.push_str(".");
            text::put_dec_padded(&mut out, (av1c[1] % 32) as u64, 2);
            out.push_str(
                if av1c[2] >= 128 {
                    "H"
                } else {
                    "M"
                },
            );
            out.push_str(".");
            let depth: u64 = if (av1c[2] / 64) % 2 == 1 {
                if (av1c[2] / 32) % 2 == 1 {
                    12
                } else {
                    10
                }
            } else {
                8
            };
            text::put_dec_padded(&mut out, depth, 2);
            return out;
        }
    }
    "av01".to_owned()
}

/// The RFC 6381 codec string of a sample entry.
pub open spec fn codec_string(code: Seq<u8>, p: Seq<u8>) -> Seq<char> {
    if code == fourcc(0x61, 0x76, 0x63, 0x31) {
        avc_codec("avc1"@, p)
    } else if code == fourcc(0x61, 0x76, 0x63, 0x33) {
        avc_codec("avc3"@, p)
    } else if code == fourcc(0x68, 0x65, 0x76, 0x31) {
        hevc_codec("hev1"@, p)
    } else if code == fourcc(0x68, 0x76, 0x63, 0x31) {
        hevc_codec("hvc1"@, p)
    } else if code == fourcc(0x6d, 0x70, 0x34, 0x61) {
        aac_codec(p)
    } else if code == fourcc(0x76, 0x70, 0x30, 0x39) {
        vp9_codec(p)
    } else if code == fourcc(0x61, 0x76, 0x30, 0x31) {
        av1_codec(p)
    } else if code == fourcc(0x61, 0x63, 0x2d, 0x33) {
        "ac-3"@
    } else if code == fourcc(0x65, 0x63, 0x2d, 0x33) {
        "ec-3"@
    } else if code == fourcc(0x4f, 0x70, 0x75, 0x73) {
        "opus"@
    } else if code == fourcc(0x66, 0x4c, 0x61, 0x43) {
        "flac"@
    } else {
        text::lossy_text(code)
    }
}

/// Extract an RFC 6381 codec string from a sample entry.
///
/// Supported codecs:
/// - H.264: `avc1.{profile}{constraint}{level}` from avcC
/// - HEVC: `hev1.{profile}.{tier}{level}.{constraint}` from hvcC
/// - AAC: `mp4a.40.{audioObjectType}` from esds
/// - VP9: `vp09.{profile}.{level}.{bitDepth}` from vpcC
/// - AV1: `av01.{profile}.{level}{tier}.{bitDepth}` from av1C
/// - AC-3, E-AC-3, Opus, FLAC: simple string
pub fn extract_codec_string(code: &[u8; 4], entry_payload: &[u8]) -> (codec: String)
    ensures
        codec@ == codec_string(code@, entry_payload@),
{
    if is_fourcc(code, 0x61, 0x76, 0x63, 0x31) {
        extract_avc_codec("avc1", entry_payload)
    } else if is_fourcc(code, 0x61, 0x76, 0x63, 0x33) {
        extract_avc_codec("avc3", entry_payload)
    } else if is_fourcc(code, 0x68, 0x65, 0x76, 0x31) {
        extract_hevc_codec("hev1", entry_payload)
    } else if is_fourcc(code, 0x68, 0x76, 0x63, 0x31) {
        extract_hevc_codec("hvc1", entry_payload)
    } else if is_fourcc(code, 0x6d, 0x70, 0x34, 0x61) {
        extract_aac_codec(entry_payload)
    } else if is_fourcc(code, 0x76, 0x70, 0x30, 0x39) {
        extract_vp9_codec(entry_payload)
    } else if is_fourcc(code, 0x61, 0x76, 0x30, 0x31) {
        extract_av1_codec(entry_payload)
    } else if is_fourcc(code, 0x61, 0x63, 0x2d, 0x33) {
        "ac-3".to_owned()
    } else if is_fourcc(code, 0x65, 0x63, 0x2d, 0x33) {
        "ec-3".to_owned()
    } else if is_fourcc(code, 0x4f, 0x70, 0x75, 0x73) {
        "opus".to_owned()
    } else if is_fourcc(code, 0x66, 0x4c, 0x61, 0x43) {
        "flac".to_owned()
    } else {
        text::utf8_lossy(code.as_slice())
    }
}

/// The 32-bit field after the two times of a full box (tkhd, mdhd): the times have four
/// bytes each in version 0, eight in the others. Zero when the box is too short.
pub open spec fn after_times(s: Seq<u8>) -> u32 {
    let at: int = if s[0] == 0 {
        12
    } else {
        20
    };
    if s.len() < 4 || s.len() < at + 4 {
        0
    } else {
        bytes::be32(s, at)
    }
}

fn read_after_times(payload: &[u8]) -> (v: u32)
    ensures
        v == after_times(payload@),
{
    if payload.len() < 4 {
        return 0;
    }
    let at: usize = if payload[0] == 0 {
        12
    } else {
        20
    };
    if payload.len() < at + 4 {
        return 0;
    }
    bytes::read_u32(payload, at)
}

/// Extract track ID from tkhd payload (after box header).
/// tkhd is a full box: version(1) + flags(3) + ...
pub fn parse_tkhd_track_id(payload: &[u8]) -> (id: u32)
    ensures
        id == after_times(payload@),
{
    read_after_times(payload)
}

/// Extract timescale from mdhd payload (after box header).
/// mdhd is a full box: version(1) + flags(3) + ...
pub fn parse_mdhd_timescale(payload: &[u8]) -> (timescale: u32)
    ensures
        timescale == after_times(payload@),
{
    read_after_times(payload)
}

/// The track type in a hdlr payload.
pub open spec fn hdlr_track_type(s: Seq<u8>) -> TrackType {
    if s.len() < 12 {
        TrackType::Unknown
    } else {
        crate::media::handler_track_type(s.subrange(8, 12))
    }
}

/// Extract track type from hdlr payload (after box header).
/// hdlr is a full box: version(1) + flags(3) + pre_defined(4) + handler_type(4) ...
pub fn parse_hdlr_track_type(payload: &[u8]) -> (kind: TrackType)
    ensures
        kind == hdlr_track_type(payload@),
{
    if payload.len() < 12 {
        return TrackType::Unknown;
    }
    TrackType::from_handler(&bytes::read_4(payload, 8))
}

/// The payload of the stsd box below a mdia payload: minf → stbl → stsd.
pub open spec fn stsd_below(mdia: Seq<u8>) -> Option<Seq<u8>> {
    match child_body(mdia, box_type::MINF@) {
        None => None,
        Some(minf) => match child_body(minf, box_type::STBL@) {
            None => None,
            Some(stbl) => child_body(stbl, box_type::STSD@),
        },
    }
}

/// The codec string and key identifier of the first sample entry below a mdia payload;
/// nothing of either where there is no entry.
pub open spec fn codec_and_kid(mdia: Seq<u8>) -> Result<(Seq<char>, Option<Seq<u8>>), ErrorView> {
    match stsd_below(mdia) {
        None => Ok((Seq::empty(), None)),
        Some(stsd) => if stsd.len() < 16 || bytes::be32(stsd, 4) == 0 {
            Ok((Seq::empty(), None))
        } else {
            let entries = stsd.skip(8);
            match cmaf::header_at(entries, 0) {
                Err(e) => Err(e),
                Ok(h) => {
                    let body = cmaf::box_body(entries, h);
                    if encrypted_entry(h.box_type@) {
                        Ok(
                            (
                                codec_string(
                                    match entry_format(body) {
                                        Some(f) => f,
                                        None => h.box_type@,
                                    },
                                    body,
                                ),
                                entry_kid(body),
                            ),
                        )
                    } else {
                        Ok((codec_string(h.box_type@, body), None))
                    }
                },
            }
        },
    }
}

/// Finds the payload of the stsd box below a mdia payload.
fn find_stsd<'a>(mdia_payload: &'a [u8]) -> (stsd: Option<&'a [u8]>)
    ensures
        opt_slice(stsd) == stsd_below(mdia_payload@),
{
    match find_child_body(mdia_payload, &box_type::MINF) {
        None => None,
        Some(minf) => match find_child_body(minf, &box_type::STBL) {
            None => None,
            Some(stbl) => find_child_body(stbl, &box_type::STSD),
        },
    }
}

/// Navigate mdia → minf → stbl → stsd to extract codec string and KID.
pub fn parse_codec_and_kid_from_mdia(mdia_payload: &[u8]) -> (r: Result<
    (String, Option<[u8; 16]>),
    EdgepackError,
>)
    ensures
        match (r, codec_and_kid(mdia_payload@)) {
            (Ok((codec, kid)), Ok((want, want_kid))) => codec@ == want && opt_kid(kid)
                == want_kid,
            (Err(e), Err(want)) => e@ == want,
            _ => false,
        },
{
    let stsd: &[u8] = match find_stsd(mdia_payload) {
        None => {
            return Ok((String::new(), None));
        },
        Some(s) => s,
    };
    if stsd.len() < 8 {
        return Ok((String::new(), None));
    }
    let entry_count: u32 = bytes::read_u32(stsd, 4);
    if entry_count == 0 {
        return Ok((String::new(), None));
    }
    let entries: &[u8] = &stsd[8..stsd.len()];
    assert(entries@ =~= stsd@.skip(8));
    if entries.len() < 8 {
        return Ok((String::new(), None));
    }
    match cmaf::read_box_header(entries, 0) {
        Err(e) => Err(e),
        Ok(h) => {
            let body: &[u8] = cmaf::box_payload(entries, &h);
            if is_encrypted_entry(&h.box_type) {
                let kid: Option<[u8; 16]> = find_kid_in_entry(body);
                let code: FourCC = match find_original_format_in_entry(body) {
                    Some(f) => f,
                    None => h.box_type,
                };
                Ok((extract_codec_string(&code, body), kid))
            } else {
                Ok((extract_codec_string(&h.box_type, body), None))
            }
        },
    }
}

/// The track that a trak payload describes; none without a mdia box.
pub open spec fn track_of(s: Seq<u8>) -> Result<Option<TrackView>, ErrorView> {
    match child_body(s, box_type::MDIA@) {
        None => Ok(None),
        Some(mdia) => match codec_and_kid(mdia) {
            Err(e) => Err(e),
            Ok((codec_string, kid)) => Ok(
                Some(
                    TrackView {
                        track_type: match child_body(mdia, box_type::HDLR@) {
                            Some(b) => hdlr_track_type(b),
                            None => TrackType::Unknown,
                        },
                        track_id: match child_body(s, box_type::TKHD@) {
                            Some(b) => after_times(b),
                            None => 0,
                        },
                        codec_string,
                        timescale: match child_body(mdia, box_type::MDHD@) {
                            Some(b) => after_times(b),
                            None => 0,
                        },
                        kid,
                    },
                ),
            ),
        },
    }
}

/// Parse a single trak box and extract track metadata.
pub fn parse_trak(trak_payload: &[u8]) -> (r: Result<Option<TrackInfo>, EdgepackError>)
    ensures
        match (r, track_of(trak_payload@)) {
            (Ok(Some(t)), Ok(Some(want))) => t@ == want,
            (Ok(None), Ok(None)) => true,
            (Err(e), Err(want)) => e@ == want,
            _ => false,
        },
{
    let track_id: u32 = match find_child_body(trak_payload, &box_type::TKHD) {
        Some(b) => parse_tkhd_track_id(b),
        None => 0,
    };
    let mdia: &[u8] = match find_child_body(trak_payload, &box_type::MDIA) {
        Some(b) => b,
        None => {
            return Ok(None);
        },
    };
    let track_type: TrackType = match find_child_body(mdia, &box_type::HDLR) {
        Some(b) => parse_hdlr_track_type(b),
        None => TrackType::Unknown,
    };
    let timescale: u32 = match find_child_body(mdia, &box_type::MDHD) {
        Some(b) => parse_mdhd_timescale(b),
        None => 0,
    };
    match parse_codec_and_kid_from_mdia(mdia) {
        Ok((codec_string, kid)) => Ok(
            Some(TrackInfo { track_type, track_id, codec_string, timescale, kid }),
        ),
        Err(e) => Err(e),
    }
}

/// The tracks of a moov payload from position `i` on, after those in `got`.
pub open spec fn tracks_in(s: Seq<u8>, i: int, got: Seq<TrackView>) -> Result<
    Seq<TrackView>,
    ErrorView,
>
    decreases cmaf::run(s).headers.len() - i,
{
    let r = cmaf::run(s);
    if i < 0 || i >= r.headers.len() {
        match r.fault {
            Some(e) => Err(e),
            None => Ok(got),
        }
    } else if r.headers[i].box_type@ == box_type::TRAK@ {
        match track_of(cmaf::box_body(s, r.headers[i])) {
            Err(e) => Err(e),
            Ok(Some(t)) => tracks_in(s, i + 1, got.push(t)),
            Ok(None) => tracks_in(s, i + 1, got),
        }
    } else {
        tracks_in(s, i + 1, got)
    }
}

/// The tracks of an init segment.
#[verifier::opaque]
pub open spec fn tracks_of(s: Seq<u8>) -> Result<Seq<TrackView>, ErrorView> {
    match child_body(s, box_type::MOOV@) {
        None => cmaf::parse_err("no moov box found"),
        Some(moov) => tracks_in(moov, 0, Seq::empty()),
    }
}

/// Extract track metadata from an init segment's moov box.
///
/// Parses moov → trak(s), extracting track ID, type, codec string,
/// timescale, and encryption key ID for each track.
#[verifier::loop_isolation(false)]
pub fn extract_tracks(init_data: &[u8]) -> (r: Result<Vec<TrackInfo>, EdgepackError>)
    ensures
        match (r, tracks_of(init_data@)) {
            (Ok(tracks), Ok(want)) => tracks_view(tracks@) == want,
            (Err(e), Err(want)) => e@ == want,
            _ => false,
        },
{
    proof {
        reveal(tracks_of);
    }
    let moov: &[u8] = match find_child_body(init_data, &box_type::MOOV) {
        Some(b) => b,
        None => {
            return Err(EdgepackError::media_parse("no moov box found"));
        },
    };
    let (headers, fault) = cmaf::scan_boxes(moov);
    let mut tracks: Vec<TrackInfo> = Vec::new();
    let mut i: usize = 0;
    assert(tracks_view(tracks@) =~= Seq::empty());
    while i < headers.len()
        invariant
            i <= headers.len(),
            tracks_in(moov@, 0, Seq::empty()) == tracks_in(
                moov@,
                i as int,
                tracks_view(tracks@),
            ),
        decreases headers.len() - i,
    {
        let h: BoxHeader = headers[i];
        if same_code(&h.box_type, &box_type::TRAK) {
            match parse_trak(cmaf::box_payload(moov, &h)) {
                Err(e) => {
                    return Err(e);
                },
                Ok(Some(t)) => {
                    let ghost before = tracks@;
                    tracks.push(t);
                    assert(tracks_view(tracks@) =~= tracks_view(before).push(t@));
                },
                Ok(None) => {},
            }
        }
        i = i + 1;
    }
    match fault {
        Some(e) => Err(e),
        None => Ok(tracks),
    }
}

proof fn lemma_with_kid(kids: Seq<Seq<u8>>, kid: Seq<u8>)
    requires
        kids.no_duplicates(),
    ensures
        with_kid(kids, kid).no_duplicates(),
        with_kid(kids, kid).contains(kid),
        forall|k: Seq<u8>|
            #[trigger] with_kid(kids, kid).contains(k) <==> kids.contains(k) || k == kid,
{
    if !kids.contains(kid) {
        let all = kids.push(kid);
        assert(all[kids.len() as int] == kid);
        assert forall|k: Seq<u8>| #[trigger] all.contains(k) <==> kids.contains(k) || k == kid by {
            if kids.contains(k) {
                let i = kids.index_of(k);
                assert(all[i] == k);
            }
        }
    }
}

proof fn lemma_distinct_kids(entries: Seq<(TrackType, Seq<u8>)>, n: nat)
    requires
        n <= entries.len(),
    ensures
        distinct_kids(entries, n).no_duplicates(),
        forall|i: int| 0 <= i < n ==> distinct_kids(entries, n).contains(#[trigger] entries[i].1),
        forall|k: Seq<u8>| #[trigger]
            distinct_kids(entries, n).contains(k) ==> exists|i: int|
                0 <= i < n && entries[i].1 == k,
    decreases n,
{
    if n > 0 {
        let before = distinct_kids(entries, (n - 1) as nat);
        lemma_distinct_kids(entries, (n - 1) as nat);
        lemma_with_kid(before, entries[n - 1].1);
        assert forall|k: Seq<u8>| #[trigger] distinct_kids(entries, n).contains(k) implies exists|
            i: int,
        | 0 <= i < n && entries[i].1 == k by {
            if before.contains(k) {
                let i = choose|i: int| 0 <= i < n - 1 && entries[i].1 == k;
                assert(entries[i].1 == k);
            } else {
                assert(entries[n - 1].1 == k);
            }
        }
    }
}

/// The keys of a mapping are listed once each, none is left out, and nothing else is listed.
pub proof fn every_key_is_listed_once(entries: Seq<(TrackType, Seq<u8>)>)
    ensures
        ({
            let all = distinct_kids(entries, entries.len());
            &&& all.no_duplicates()
            &&& forall|i: int| 0 <= i < entries.len() ==> all.contains(#[trigger] entries[i].1)
            &&& forall|k: Seq<u8>| #[trigger]
                all.contains(k) ==> exists|i: int| 0 <= i < entries.len() && entries[i].1 == k
        }),
{
    lemma_distinct_kids(entries, entries.len());
}

proof fn lemma_lookup(entries: Seq<(TrackType, Seq<u8>)>, t: TrackType, i: int)
    requires
        0 <= i,
    ensures
        lookup(entries, t, i) is Some <==> exists|k: int|
            i <= k < entries.len() && (#[trigger] entries[k]).0 == t,
    decreases entries.len() - i,
{
    if i < entries.len() {
        lemma_lookup(entries, t, i + 1);
        if entries[i].0 == t {
        } else if lookup(entries, t, i + 1) is Some {
            let k = choose|k: int| i + 1 <= k < entries.len() && (#[trigger] entries[k]).0 == t;
            assert(entries[k].0 == t);
        }
    }
}

/// Whether a mapping has at most one entry for each track type.
pub open spec fn one_per_type(entries: Seq<(TrackType, Seq<u8>)>) -> bool {
    forall|i: int, j: int|
        0 <= i < j < entries.len() ==> (#[trigger] entries[i]).0 != (#[trigger] entries[j]).0
}

proof fn lemma_mapping(tracks: Seq<TrackView>, n: nat)
    requires
        n <= tracks.len(),
    ensures
        one_per_type(mapping_of(tracks, n)),
        forall|i: int|
            0 <= i < n && (#[trigger] tracks[i]).kid is Some ==> lookup(
                mapping_of(tracks, n),
                tracks[i].track_type,
                0,
            ) is Some,
    decreases n,
{
    if n > 0 {
        let before = mapping_of(tracks, (n - 1) as nat);
        let now = mapping_of(tracks, n);
        let t = tracks[n - 1].track_type;
        lemma_mapping(tracks, (n - 1) as nat);
        lemma_lookup(before, t, 0);
        assert forall|i: int| 0 <= i < n && (#[trigger] tracks[i]).kid is Some implies lookup(
            now,
            tracks[i].track_type,
            0,
        ) is Some by {
            lemma_lookup(before, tracks[i].track_type, 0);
            lemma_lookup(now, tracks[i].track_type, 0);
            if i < n - 1 {
                let k = choose|k: int|
                    0 <= k < before.len() && (#[trigger] before[k]).0 == tracks[i].track_type;
                assert(now[k] == before[k]);
            } else if now.len() > before.len() {
                assert(now[before.len() as int].0 == t);
            }
        }
    }
}

/// A mapping made from tracks has at most one entry for each track type, and one for every
/// type of which some track has a key.
pub proof fn tracks_map_once_per_type(tracks: Seq<TrackView>)
    ensures
        one_per_type(mapping_of(tracks, tracks.len())),
        forall|i: int|
            0 <= i < tracks.len() && (#[trigger] tracks[i]).kid is Some ==> lookup(
                mapping_of(tracks, tracks.len()),
                tracks[i].track_type,
                0,
            ) is Some,
{
    lemma_mapping(tracks, tracks.len());
}

/// With a single key every track gets that key, and no other key is listed.
pub proof fn single_key_serves_every_track(kid: Seq<u8>, t: TrackType)
    ensures
        ({
            let entries = seq![
                (TrackType::Video, kid),
                (TrackType::Audio, kid),
                (TrackType::Subtitle, kid),
            ];
            key_for(entries, t) == Some(kid) && distinct_kids(entries, entries.len()) == seq![kid]
        }),
{
    let entries = seq![
        (TrackType::Video, kid),
        (TrackType::Audio, kid),
        (TrackType::Subtitle, kid),
    ];
    assert(lookup(entries, t, 0) is Some ==> lookup(entries, t, 0) == Some(kid)) by {
        reveal_with_fuel(lookup, 4);
    }
    let one = seq![kid];
    assert(one[0] == kid);
    assert(distinct_kids(entries, 0) == Seq::<Seq<u8>>::empty());
    assert(distinct_kids(entries, 1) =~= one);
    assert(distinct_kids(entries, 2) == one);
    assert(distinct_kids(entries, 3) == one);
}

/// Whether track `i` is the first of its type that has a key, and which key it has.
pub open spec fn first_key_at(tracks: Seq<TrackView>, i: int, t: TrackType, kid: Seq<u8>) -> bool {
    &&& tracks[i].track_type == t
    &&& tracks[i].kid == Some(kid)
    &&& forall|j: int| 0 <= j < i && (#[trigger] tracks[j]).track_type == t ==> tracks[j].kid is None
}

/// Whether a key is that of the first track of a type that has one.
pub open spec fn first_key(tracks: Seq<TrackView>, n: nat, t: TrackType, kid: Seq<u8>) -> bool {
    exists|i: int| 0 <= i < n && #[trigger] first_key_at(tracks, i, t, kid)
}

/// Tracks map each type to the key of the first track of that type that has one, and a type
/// without such a track to none.
pub proof fn tracks_map_to_the_first_key(tracks: Seq<TrackView>, n: nat, t: TrackType)
    requires
        n <= tracks.len(),
    ensures
        match lookup(mapping_of(tracks, n), t, 0) {
            Some(kid) => first_key(tracks, n, t, kid),
            None => forall|i: int|
                0 <= i < n && (#[trigger] tracks[i]).track_type == t ==> tracks[i].kid is None,
        },
    decreases n,
{
    if n > 0 {
        let m = (n - 1) as nat;
        tracks_map_to_the_first_key(tracks, m, t);
        let before = mapping_of(tracks, m);
        let v = tracks[m as int];
        let old_key = lookup(before, t, 0);
        match old_key {
            Some(kid) => {
                let i = choose|i: int| 0 <= i < m && #[trigger] first_key_at(tracks, i, t, kid);
                assert(first_key_at(tracks, i, t, kid));
                if v.kid is Some && lookup(before, v.track_type, 0) is None {
                    lemma_lookup_push(before, (v.track_type, v.kid->0), t, 0);
                }
                assert(lookup(mapping_of(tracks, n), t, 0) == Some(kid));
            },
            None => {
                if v.kid is Some && v.track_type == t {
                    lemma_lookup_push(before, (v.track_type, v.kid->0), t, 0);
                    assert(lookup(mapping_of(tracks, n), t, 0) == v.kid);
                    assert(first_key_at(tracks, m as int, t, v.kid->0));
                } else {
                    if v.kid is Some && lookup(before, v.track_type, 0) is None {
                        lemma_lookup_push(before, (v.track_type, v.kid->0), t, 0);
                    }
                    assert(lookup(mapping_of(tracks, n), t, 0) is None);
                }
            },
        }
    }
}

proof fn lemma_lookup_push(
    entries: Seq<(TrackType, Seq<u8>)>,
    e: (TrackType, Seq<u8>),
    t: TrackType,
    i: int,
)
    requires
        0 <= i <= entries.len(),
    ensures
        lookup(entries.push(e), t, i) == (match lookup(entries, t, i) {
            Some(k) => Some(k),
            None => if e.0 == t {
                Some(e.1)
            } else {
                None
            },
        }),
    decreases entries.len() - i,
{
    if i < entries.len() {
        lemma_lookup_push(entries, e, t, i + 1);
    } else {
        reveal_with_fuel(lookup, 2);
    }
}

} // verus!
