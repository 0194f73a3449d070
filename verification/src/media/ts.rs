//! MPEG-TS demuxer for extracting PES packets from transport stream segments.

use crate::bytes;
use crate::crypto;
use crate::error::{EdgepackError, ErrorView};
use crate::media::cmaf;
use crate::text;
use vstd::prelude::*;

verus! {

/// TS packet size.
pub const TS_PACKET_SIZE: usize = 188;

/// TS sync byte.
pub const TS_SYNC_BYTE: u8 = 0x47;

/// PAT PID.
pub const PAT_PID: u16 = 0x0000;

/// A parsed MPEG-TS packet header.
#[derive(Debug, Clone)]
pub struct TsPacket {
    /// Packet ID (13 bits).
    pub pid: u16,
    /// Payload unit start indicator.
    pub pusi: bool,
    /// Continuity counter (4 bits).
    pub continuity_counter: u8,
    /// Adaptation field data (if present).
    pub adaptation_field: Option<AdaptationField>,
    /// Payload bytes (after header + adaptation field).
    pub payload: Vec<u8>,
}

/// The content of a [`TsPacket`].
pub struct TsPacketView {
    pub pid: u16,
    pub pusi: bool,
    pub continuity_counter: u8,
    pub adaptation_field: Option<AdaptationField>,
    pub payload: Seq<u8>,
}

impl View for TsPacket {
    type V = TsPacketView;

    open spec fn view(&self) -> TsPacketView {
        TsPacketView {
            pid: self.pid,
            pusi: self.pusi,
            continuity_counter: self.continuity_counter,
            adaptation_field: self.adaptation_field,
            payload: self.payload@,
        }
    }
}

/// Adaptation field data.
#[derive(Debug, Clone, Copy)]
pub struct AdaptationField {
    /// Length of the adaptation field.
    pub length: u8,
    /// Random access indicator (indicates IDR/sync point).
    pub random_access_indicator: bool,
    /// PCR value (if present), in 90kHz ticks.
    pub pcr: Option<u64>,
}

/// A reassembled PES (Packetized Elementary Stream) packet.
#[derive(Debug, Clone)]
pub struct PesPacket {
    /// Stream ID (e.g., 0xE0 for video, 0xC0 for audio).
    pub stream_id: u8,
    /// PTS (Presentation Time Stamp) in 90kHz ticks.
    pub pts: Option<u64>,
    /// DTS (Decode Time Stamp) in 90kHz ticks.
    pub dts: Option<u64>,
    /// Elementary stream data (H.264 NAL units for video, ADTS frames for audio).
    pub data: Vec<u8>,
}

/// The content of a [`PesPacket`].
pub struct PesView {
    pub stream_id: u8,
    pub pts: Option<u64>,
    pub dts: Option<u64>,
    pub data: Seq<u8>,
}

impl View for PesPacket {
    type V = PesView;

    open spec fn view(&self) -> PesView {
        PesView { stream_id: self.stream_id, pts: self.pts, dts: self.dts, data: self.data@ }
    }
}

/// The contents of a list of PES packets.
pub open spec fn pes_views(packets: Seq<PesPacket>) -> Seq<PesView> {
    packets.map_values(|p: PesPacket| p@)
}

/// Program Association Table entry.
#[derive(Debug, Clone)]
pub struct PatTable {
    /// Program number -> PMT PID mapping.
    pub programs: Vec<(u16, u16)>,
}

impl View for PatTable {
    type V = Seq<(u16, u16)>;

    open spec fn view(&self) -> Seq<(u16, u16)> {
        self.programs@
    }
}

/// Program Map Table.
#[derive(Debug, Clone)]
pub struct PmtTable {
    /// PCR PID.
    pub pcr_pid: u16,
    /// Elementary streams in this program.
    pub streams: Vec<PmtStream>,
}

/// The content of a [`PmtTable`].
pub struct PmtView {
    pub pcr_pid: u16,
    pub streams: Seq<PmtStream>,
}

impl View for PmtTable {
    type V = PmtView;

    open spec fn view(&self) -> PmtView {
        PmtView { pcr_pid: self.pcr_pid, streams: self.streams@ }
    }
}

/// A stream entry in the PMT.
#[derive(Debug, Clone, Copy)]
pub struct PmtStream {
    /// Stream type (0x1B = H.264, 0x24 = H.265, 0x0F = AAC, 0x81 = AC-3).
    pub stream_type: u8,
    /// Elementary stream PID.
    pub pid: u16,
}

/// Detected codec from PMT stream type.
#[derive(Debug, Clone, Copy, PartialEq, Eq, Structural)]
pub enum TsCodec {
    H264,
    H265,
    Aac,
    Ac3,
    Unknown(u8),
}

/// The codec that a stream type stands for.
pub open spec fn codec_of(st: u8) -> TsCodec {
    if st == 0x1B {
        TsCodec::H264
    } else if st == 0x24 {
        TsCodec::H265
    } else if st == 0x0F {
        TsCodec::Aac
    } else if st == 0x81 {
        TsCodec::Ac3
    } else {
        TsCodec::Unknown(st)
    }
}

impl TsCodec {
    pub open spec fn video(self) -> bool {
        self is H264 || self is H265
    }

    pub open spec fn audio(self) -> bool {
        self is Aac || self is Ac3
    }

    /// The codec that a stream type stands for.
    pub fn from_stream_type(st: u8) -> (codec: TsCodec)
        ensures
            codec == codec_of(st),
    {
        if st == 0x1B {
            TsCodec::H264
        } else if st == 0x24 {
            TsCodec::H265
        } else if st == 0x0F {
            TsCodec::Aac
        } else if st == 0x81 {
            TsCodec::Ac3
        } else {
            TsCodec::Unknown(st)
        }
    }

    /// Whether this is a video codec.
    pub fn is_video(&self) -> (yes: bool)
        ensures
            yes == self.video(),
    {
        match self {
            TsCodec::H264 => true,
            TsCodec::H265 => true,
            _ => false,
        }
    }

    /// Whether this is an audio codec.
    pub fn is_audio(&self) -> (yes: bool)
        ensures
            yes == self.audio(),
    {
        match self {
            TsCodec::Aac => true,
            TsCodec::Ac3 => true,
            _ => false,
        }
    }
}

/// Result of demuxing a TS segment.
#[derive(Debug, Clone)]
pub struct DemuxedSegment {
    /// Video PES packets in decode order.
    pub video_packets: Vec<PesPacket>,
    /// Audio PES packets in decode order.
    pub audio_packets: Vec<PesPacket>,
    /// Detected video codec.
    pub video_codec: Option<TsCodec>,
    /// Detected audio codec.
    pub audio_codec: Option<TsCodec>,
    /// PMT information.
    pub pmt: Option<PmtTable>,
}

/// The content of a [`DemuxedSegment`].
pub struct DemuxedView {
    pub video_packets: Seq<PesView>,
    pub audio_packets: Seq<PesView>,
    pub video_codec: Option<TsCodec>,
    pub audio_codec: Option<TsCodec>,
    pub pmt: Option<PmtView>,
}

pub open spec fn opt_pmt(pmt: Option<PmtTable>) -> Option<PmtView> {
    match pmt {
        Some(p) => Some(p@),
        None => None,
    }
}

impl View for DemuxedSegment {
    type V = DemuxedView;

    open spec fn view(&self) -> DemuxedView {
        DemuxedView {
            video_packets: pes_views(self.video_packets@),
            audio_packets: pes_views(self.audio_packets@),
            video_codec: self.video_codec,
            audio_codec: self.audio_codec,
            pmt: opt_pmt(self.pmt),
        }
    }
}

/// The program clock reference in an adaptation field, in 90kHz ticks: its 33-bit base. The
/// extension that counts parts of a tick is left out.
pub open spec fn pcr_of(s: Seq<u8>) -> u64 {
    (s[2] * 0x200_0000 + s[3] * 0x2_0000 + s[4] * 0x200 + s[5] * 2 + s[6] / 128) as u64
}

/// The adaptation field that starts with its length byte.
pub open spec fn adaptation_of(s: Seq<u8>) -> AdaptationField {
    if s.len() == 0 {
        AdaptationField { length: 0, random_access_indicator: false, pcr: None }
    } else if s[0] == 0 || s.len() < 2 {
        AdaptationField { length: s[0], random_access_indicator: false, pcr: None }
    } else {
        AdaptationField {
            length: s[0],
            random_access_indicator: (s[1] / 64) % 2 == 1,
            pcr: if (s[1] / 16) % 2 == 1 && s.len() >= 8 {
                Some(pcr_of(s))
            } else {
                None
            },
        }
    }
}

/// Parse an adaptation field from the data starting at the adaptation field length byte.
pub fn parse_adaptation_field(data: &[u8]) -> (field: AdaptationField)
    ensures
        field == adaptation_of(data@),
{
    if data.len() == 0 {
        return AdaptationField { length: 0, random_access_indicator: false, pcr: None };
    }
    let length: u8 = data[0];
    if length == 0 || data.len() < 2 {
        return AdaptationField { length, random_access_indicator: false, pcr: None };
    }
    let flags: u8 = data[1];
    let pcr: Option<u64> = if (flags / 16) % 2 == 1 && data.len() >= 8 {
        Some(
            data[2] as u64 * 0x200_0000 + data[3] as u64 * 0x2_0000 + data[4] as u64 * 0x200
                + data[5] as u64 * 2 + (data[6] / 128) as u64,
        )
    } else {
        None
    };
    AdaptationField { length, random_access_indicator: (flags / 64) % 2 == 1, pcr }
}

/// A 13-bit packet identifier in two bytes.
pub open spec fn pid_at(s: Seq<u8>, i: int) -> u16 {
    ((s[i] % 32) * 0x100 + s[i + 1]) as u16
}

/// A 12-bit length in two bytes.
pub open spec fn length_at(s: Seq<u8>, i: int) -> int {
    (s[i] % 16) * 0x100 + s[i + 1]
}

fn read_pid(data: &[u8], i: usize) -> (pid: u16)
    requires
        i + 2 <= data.len(),
    ensures
        pid == pid_at(data@, i as int),
{
    (data[i] % 32) as u16 * 0x100 + data[i + 1] as u16
}

fn read_length(data: &[u8], i: usize) -> (n: usize)
    requires
        i + 2 <= data.len(),
    ensures
        n == length_at(data@, i as int),
        n < 4096,
{
    (data[i] % 16) as usize * 0x100 + data[i + 1] as usize
}

/// Where the payload of a TS packet starts: after the header and the adaptation field.
pub open spec fn payload_start(s: Seq<u8>) -> int {
    if s[3] / 16 % 4 >= 2 {
        5 + adaptation_of(s.skip(4)).length
    } else {
        4
    }
}

/// The TS packet in the first 188 bytes.
pub open spec fn packet_of(s: Seq<u8>) -> Result<TsPacketView, ErrorView> {
    if s.len() < 188 {
        Err(
            ErrorView::MediaParse(
                "TS packet too short: "@ + text::dec(s.len()) + " bytes, expected "@ + text::dec(
                    188,
                ),
            ),
        )
    } else if s[0] != 0x47 {
        Err(
            ErrorView::MediaParse(
                "invalid TS sync byte: 0x"@ + text::hex2(s[0]) + ", expected 0x"@ + text::hex2(
                    0x47,
                ),
            ),
        )
    } else {
        let control = s[3] / 16 % 4;
        Ok(
            TsPacketView {
                pid: pid_at(s, 1),
                pusi: (s[1] / 64) % 2 == 1,
                continuity_counter: s[3] % 16,
                adaptation_field: if control >= 2 {
                    Some(adaptation_of(s.skip(4)))
                } else {
                    None
                },
                payload: if control % 2 == 1 {
                    bytes::clamped(s, payload_start(s), 188)
                } else {
                    Seq::empty()
                },
            },
        )
    }
}

/// Parse a single 188-byte TS packet.
pub fn parse_ts_packet(data: &[u8]) -> (r: Result<TsPacket, EdgepackError>)
    ensures
        cmaf::outcome_view(r) == packet_of(data@),
{
    if data.len() < TS_PACKET_SIZE {
        let mut message: String = "TS packet too short: ".to_owned();
        text::put_dec(&mut message, data.len() as u64);
        message.push_str(" bytes, expected ");
        text::put_dec(&mut message, TS_PACKET_SIZE as u64);
        return Err(EdgepackError::MediaParse(message));
    }
    if data[0] != TS_SYNC_BYTE {
        let mut message: String = "invalid TS sync byte: 0x".to_owned();
        text::put_hex2(&mut message, data[0]);
        message.push_str(", expected 0x");
        text::put_hex2(&mut message, TS_SYNC_BYTE);
        return Err(EdgepackError::MediaParse(message));
    }
    let control: u8 = data[3] / 16 % 4;
    let mut offset: usize = 4;
    let adaptation_field: Option<AdaptationField> = if control >= 2 {
        let rest: &[u8] = &data[4..data.len()];
        assert(rest@ =~= data@.skip(4));
        let af: AdaptationField = parse_adaptation_field(rest);
        offset = 5 + af.length as usize;
        Some(af)
    } else {
        None
    };
    let payload: Vec<u8> = if control % 2 == 1 {
        bytes::to_vec(bytes::slice_clamped(data, offset, TS_PACKET_SIZE))
    } else {
        Vec::new()
    };
    Ok(
        TsPacket {
            pid: read_pid(data, 1),
            pusi: (data[1] / 64) % 2 == 1,
            continuity_counter: data[3] % 16,
            adaptation_field,
            payload,
        },
    )
}

/// The 33-bit timestamp in five bytes at `i`, with marker bits between its parts.
pub open spec fn timestamp_at(s: Seq<u8>, i: int) -> u64 {
    ((s[i] / 2 % 8) * 0x4000_0000 + s[i + 1] * 0x40_0000 + (s[i + 2] / 2) * 0x8000 + s[i + 3]
        * 0x80 + s[i + 4] / 2) as u64
}

/// Parse a 5-byte PES timestamp (PTS or DTS).
pub fn parse_timestamp(data: &[u8]) -> (t: u64)
    requires
        data.len() >= 5,
    ensures
        t == timestamp_at(data@, 0),
{
    (data[0] / 2 % 8) as u64 * 0x4000_0000 + data[1] as u64 * 0x40_0000 + (data[2] / 2) as u64
        * 0x8000 + data[3] as u64 * 0x80 + (data[4] / 2) as u64
}

/// What a PES header says: stream, PTS, DTS and how long it is.
pub struct PesHeader {
    pub stream_id: u8,
    pub pts: Option<u64>,
    pub dts: Option<u64>,
    pub length: int,
}

/// Whether the stream has no optional PES header.
pub open spec fn bare_stream(id: u8) -> bool {
    id == 0xBC || id == 0xBE || id == 0xBF || 0xF0 <= id <= 0xF2 || id == 0xF8 || id == 0xFF
}

/// The PES header at the start of `s`.
pub open spec fn pes_header_of(s: Seq<u8>) -> Result<PesHeader, ErrorView> {
    if s.len() < 9 {
        cmaf::parse_err("PES header too short")
    } else if s[0] != 0 || s[1] != 0 || s[2] != 1 {
        cmaf::parse_err("invalid PES start code")
    } else if bare_stream(s[3]) {
        Ok(PesHeader { stream_id: s[3], pts: None, dts: None, length: 6 })
    } else if s.len() < 9 + s[8] {
        Err(
            ErrorView::MediaParse(
                "PES header truncated: need "@ + text::dec((9 + s[8]) as nat) + " bytes, have "@
                    + text::dec(s.len()),
            ),
        )
    } else {
        Ok(
            PesHeader {
                stream_id: s[3],
                pts: if s[7] / 64 >= 2 && s.len() >= 14 {
                    Some(timestamp_at(s, 9))
                } else {
                    None
                },
                dts: if s[7] / 64 == 3 && s.len() >= 19 {
                    Some(timestamp_at(s, 14))
                } else {
                    None
                },
                length: 9 + s[8],
            },
        )
    }
}

/// Parse a PES packet header.
///
/// Returns `(stream_id, pts, dts, header_length)` where `header_length` is the total
/// number of bytes consumed by the PES header (everything before the ES data).
pub fn parse_pes_header(data: &[u8]) -> (r: Result<
    (u8, Option<u64>, Option<u64>, usize),
    EdgepackError,
>)
    ensures
        match (r, pes_header_of(data@)) {
            (Ok((id, pts, dts, n)), Ok(want)) => id == want.stream_id && pts == want.pts && dts
                == want.dts && n == want.length && n <= data.len(),
            (Err(e), Err(want)) => e@ == want,
            _ => false,
        },
{
    if data.len() < 9 {
        return Err(EdgepackError::media_parse("PES header too short"));
    }
    if data[0] != 0x00 || data[1] != 0x00 || data[2] != 0x01 {
        return Err(EdgepackError::media_parse("invalid PES start code"));
    }
    let stream_id: u8 = data[3];
    if stream_id == 0xBC || stream_id == 0xBE || stream_id == 0xBF || (stream_id >= 0xF0
        && stream_id <= 0xF2) || stream_id == 0xF8 || stream_id == 0xFF {
        return Ok((stream_id, None, None, 6));
    }
    let header_length: usize = 9 + data[8] as usize;
    if data.len() < header_length {
        let mut message: String = "PES header truncated: need ".to_owned();
        text::put_dec(&mut message, header_length as u64);
        message.push_str(" bytes, have ");
        text::put_dec(&mut message, data.len() as u64);
        return Err(EdgepackError::MediaParse(message));
    }
    let pts: Option<u64> = if data[7] / 64 >= 2 && data.len() >= 14 {
        Some(parse_timestamp(&data[9..14]))
    } else {
        None
    };
    let dts: Option<u64> = if data[7] / 64 == 3 && data.len() >= 19 {
        Some(parse_timestamp(&data[14..19]))
    } else {
        None
    };
    Ok((stream_id, pts, dts, header_length))
}

/// The programs from `i` on, after those in `got`: program number and PMT PID, without
/// the network entry (number 0).
pub open spec fn pat_programs(s: Seq<u8>, i: int, end: int, got: Seq<(u16, u16)>) -> Seq<(u16, u16)>
    decreases end - i,
{
    if i + 4 > end {
        got
    } else if bytes::be16(s, i) != 0 {
        pat_programs(s, i + 4, end, got.push((bytes::be16(s, i), pid_at(s, i + 2))))
    } else {
        pat_programs(s, i + 4, end, got)
    }
}

/// The program association table in a section payload; the first byte says how many
/// bytes to skip.
pub open spec fn pat_of(p: Seq<u8>) -> Result<Seq<(u16, u16)>, ErrorView> {
    if p.len() == 0 {
        cmaf::parse_err("PAT payload empty")
    } else if p.len() < 1 + p[0] + 8 {
        cmaf::parse_err("PAT payload too short")
    } else {
        let s = p.skip(1 + p[0]);
        if s[0] != 0 {
            Err(ErrorView::MediaParse("invalid PAT table_id: 0x"@ + text::hex2(s[0])))
        } else if length_at(s, 1) < 9 {
            Ok(Seq::empty())
        } else if s.len() < 8 + (length_at(s, 1) - 9) {
            cmaf::parse_err("PAT section truncated")
        } else {
            Ok(pat_programs(s, 8, 8 + (length_at(s, 1) - 9), Seq::empty()))
        }
    }
}

/// Parse a Program Association Table (PAT).
#[verifier::loop_isolation(false)]
pub fn parse_pat(payload: &[u8]) -> (r: Result<PatTable, EdgepackError>)
    ensures
        cmaf::outcome_view(r) == pat_of(payload@),
{
    if payload.len() == 0 {
        return Err(EdgepackError::media_parse("PAT payload empty"));
    }
    let offset: usize = 1 + payload[0] as usize;
    if payload.len() < offset + 8 {
        return Err(EdgepackError::media_parse("PAT payload too short"));
    }
    let data: &[u8] = &payload[offset..payload.len()];
    assert(data@ =~= payload@.skip(1 + payload@[0]));
    if data[0] != 0x00 {
        let mut message: String = "invalid PAT table_id: 0x".to_owned();
        text::put_hex2(&mut message, data[0]);
        return Err(EdgepackError::MediaParse(message));
    }
    let section_length: usize = read_length(data, 1);
    let mut programs: Vec<(u16, u16)> = Vec::new();
    if section_length < 9 {
        assert(programs@ =~= Seq::empty());
        return Ok(PatTable { programs });
    }
    let end: usize = 8 + (section_length - 9);
    if data.len() < end {
        return Err(EdgepackError::media_parse("PAT section truncated"));
    }
    let mut i: usize = 8;
    while i + 4 <= end
        invariant
            8 <= i <= end + 3,
            end <= data.len(),
            end < 5000,
            pat_programs(data@, 8, end as int, Seq::empty()) == pat_programs(
                data@,
                i as int,
                end as int,
                programs@,
            ),
        decreases end + 4 - i,
    {
        let number: u16 = bytes::read_u16(data, i);
        let pid: u16 = read_pid(data, i + 2);
        if number != 0 {
            programs.push((number, pid));
        }
        i = i + 4;
    }
    Ok(PatTable { programs })
}

/// The streams from `i` on, after those in `got`.
pub open spec fn pmt_streams(s: Seq<u8>, i: int, end: int, got: Seq<PmtStream>) -> Seq<PmtStream>
    decreases (if i < end { end - i } else { 0 }),
{
    if i < 0 || i + 5 > end || i + 5 > s.len() {
        got
    } else {
        pmt_streams(
            s,
            i + 5 + length_at(s, i + 3),
            end,
            got.push(PmtStream { stream_type: s[i], pid: pid_at(s, i + 1) }),
        )
    }
}

/// The program map table in a section payload; the first byte says how many bytes to
/// skip.
pub open spec fn pmt_of(p: Seq<u8>) -> Result<PmtView, ErrorView> {
    if p.len() == 0 {
        cmaf::parse_err("PMT payload empty")
    } else if p.len() < 1 + p[0] + 12 {
        cmaf::parse_err("PMT payload too short")
    } else {
        let s = p.skip(1 + p[0]);
        if s[0] != 2 {
            Err(ErrorView::MediaParse("invalid PMT table_id: 0x"@ + text::hex2(s[0])))
        } else {
            // The section ends with a four-byte checksum.
            let end = length_at(s, 1) - 1;
            Ok(
                PmtView {
                    pcr_pid: pid_at(s, 8),
                    streams: pmt_streams(s, 12 + length_at(s, 10), end, Seq::empty()),
                },
            )
        }
    }
}

/// Parse a Program Map Table (PMT).
#[verifier::loop_isolation(false)]
pub fn parse_pmt(payload: &[u8]) -> (r: Result<PmtTable, EdgepackError>)
    ensures
        cmaf::outcome_view(r) == pmt_of(payload@),
{
    if payload.len() == 0 {
        return Err(EdgepackError::media_parse("PMT payload empty"));
    }
    let offset: usize = 1 + payload[0] as usize;
    if payload.len() < offset + 12 {
        return Err(EdgepackError::media_parse("PMT payload too short"));
    }
    let data: &[u8] = &payload[offset..payload.len()];
    assert(data@ =~= payload@.skip(1 + payload@[0]));
    if data[0] != 0x02 {
        let mut message: String = "invalid PMT table_id: 0x".to_owned();
        text::put_hex2(&mut message, data[0]);
        return Err(EdgepackError::MediaParse(message));
    }
    let section_length: usize = read_length(data, 1);
    let pcr_pid: u16 = read_pid(data, 8);
    let start: usize = 12 + read_length(data, 10);
    let mut streams: Vec<PmtStream> = Vec::new();
    let mut i: usize = start;
    while i + 5 <= data.len() && i + 6 <= section_length
        invariant
            i < 20000,
            section_length < 4096,
            pmt_streams(data@, start as int, section_length - 1, Seq::empty()) == pmt_streams(
                data@,
                i as int,
                section_length - 1,
                streams@,
            ),
        decreases section_length + 20000 - i,
    {
        let info_length: usize = read_length(data, i + 3);
        streams.push(PmtStream { stream_type: data[i], pid: read_pid(data, i + 1) });
        i = i + 5 + info_length;
    }
    Ok(PmtTable { pcr_pid, streams })
}

/// A PES stream while it is being put together.
pub struct PesStream {
    buffer: Vec<u8>,
    pusi_seen: bool,
    packets: Vec<PesPacket>,
    header: Option<(u8, Option<u64>, Option<u64>)>,
}

/// The content of a [`PesStream`].
pub struct StreamView {
    /// Bytes of the packet that has not ended yet.
    pub buffer: Seq<u8>,
    /// Whether a packet has started at all.
    pub seen: bool,
    /// The packets that have ended.
    pub packets: Seq<PesView>,
    /// Stream, PTS and DTS of the packet that has not ended yet.
    pub header: Option<(u8, Option<u64>, Option<u64>)>,
}

impl View for PesStream {
    type V = StreamView;

    closed spec fn view(&self) -> StreamView {
        StreamView {
            buffer: self.buffer@,
            seen: self.pusi_seen,
            packets: pes_views(self.packets@),
            header: self.header,
        }
    }
}

impl StreamView {
    /// A stream of which nothing has been seen.
    pub open spec fn fresh() -> StreamView {
        StreamView { buffer: Seq::empty(), seen: false, packets: Seq::empty(), header: None }
    }

    /// The stream after its current packet has been closed. A packet without bytes or
    /// without a header is not closed.
    pub open spec fn closed_packet(self) -> StreamView {
        match self.header {
            Some((stream_id, pts, dts)) => if self.seen && self.buffer.len() > 0 {
                StreamView {
                    buffer: Seq::empty(),
                    seen: self.seen,
                    packets: self.packets.push(
                        PesView { stream_id, pts, dts, data: self.buffer },
                    ),
                    header: None,
                }
            } else {
                self
            },
            None => self,
        }
    }

    /// The stream after one more TS payload, and the error if its PES header is broken.
    pub open spec fn step(self, pusi: bool, payload: Seq<u8>) -> (StreamView, Option<ErrorView>) {
        if pusi {
            let base = StreamView { seen: true, ..self.closed_packet() };
            if payload.len() >= 9 && payload[0] == 0 && payload[1] == 0 && payload[2] == 1 {
                match pes_header_of(payload) {
                    Err(e) => (base, Some(e)),
                    Ok(h) => (
                        StreamView {
                            header: Some((h.stream_id, h.pts, h.dts)),
                            buffer: base.buffer + payload.skip(h.length),
                            ..base
                        },
                        None,
                    ),
                }
            } else {
                (StreamView { buffer: base.buffer + payload, ..base }, None)
            }
        } else if self.seen {
            (StreamView { buffer: self.buffer + payload, ..self }, None)
        } else {
            (self, None)
        }
    }
}

/// Whether an optional error is the given one.
pub open spec fn step_outcome(r: Result<(), EdgepackError>) -> Option<ErrorView> {
    match r {
        Ok(_) => None,
        Err(e) => Some(e@),
    }
}

impl PesStream {
    /// A stream of which nothing has been seen.
    fn new() -> (s: PesStream)
        ensures
            s@ == StreamView::fresh(),
    {
        let s: PesStream = PesStream {
            buffer: Vec::new(),
            pusi_seen: false,
            packets: Vec::new(),
            header: None,
        };
        assert(s@.packets =~= Seq::empty());
        s
    }

    /// Closes the current packet.
    fn close_packet(&mut self)
        ensures
            final(self)@ == old(self)@.closed_packet(),
    {
        if self.pusi_seen && self.buffer.len() > 0 {
            if let Some((stream_id, pts, dts)) = self.header {
                let ghost before = self.packets@;
                let mut data: Vec<u8> = Vec::new();
                core::mem::swap(&mut data, &mut self.buffer);
                self.header = None;
                let packet: PesPacket = PesPacket { stream_id, pts, dts, data };
                self.packets.push(packet);
                assert(pes_views(self.packets@) =~= pes_views(before).push(packet@));
            }
        }
    }

    /// Takes in the payload of one TS packet.
    pub fn process_pes_packet(&mut self, packet: &TsPacket) -> (r: Result<(), EdgepackError>)
        ensures
            (final(self)@, step_outcome(r)) == old(self)@.step(packet.pusi, packet.payload@),
    {
        let payload: &[u8] = packet.payload.as_slice();
        if packet.pusi {
            self.close_packet();
            self.pusi_seen = true;
            if payload.len() >= 9 && payload[0] == 0x00 && payload[1] == 0x00 && payload[2]
                == 0x01 {
                match parse_pes_header(payload) {
                    Err(e) => {
                        return Err(e);
                    },
                    Ok((stream_id, pts, dts, header_len)) => {
                        self.header = Some((stream_id, pts, dts));
                        let rest: &[u8] = &payload[header_len..payload.len()];
                        assert(rest@ =~= payload@.skip(header_len as int));
                        bytes::put_bytes(&mut self.buffer, rest);
                    },
                }
            } else {
                bytes::put_bytes(&mut self.buffer, payload);
            }
        } else if self.pusi_seen {
            bytes::put_bytes(&mut self.buffer, payload);
        }
        Ok(())
    }
}

/// Stateful TS packet accumulator that reassembles PES packets.
pub struct TsDemuxer {
    pat: Option<PatTable>,
    pmt: Option<PmtTable>,
    pmt_pid: Option<u16>,
    video_pid: Option<u16>,
    audio_pid: Option<u16>,
    video_codec: Option<TsCodec>,
    audio_codec: Option<TsCodec>,
    video: PesStream,
    audio: PesStream,
}

/// The content of a [`TsDemuxer`].
pub struct DemuxView {
    pub pat: Option<Seq<(u16, u16)>>,
    pub pmt: Option<PmtView>,
    pub pmt_pid: Option<u16>,
    pub video_pid: Option<u16>,
    pub audio_pid: Option<u16>,
    pub video_codec: Option<TsCodec>,
    pub audio_codec: Option<TsCodec>,
    pub video: StreamView,
    pub audio: StreamView,
}

impl View for TsDemuxer {
    type V = DemuxView;

    closed spec fn view(&self) -> DemuxView {
        DemuxView {
            pat: match self.pat {
                Some(p) => Some(p@),
                None => None,
            },
            pmt: opt_pmt(self.pmt),
            pmt_pid: self.pmt_pid,
            video_pid: self.video_pid,
            audio_pid: self.audio_pid,
            video_codec: self.video_codec,
            audio_codec: self.audio_codec,
            video: self.video@,
            audio: self.audio@,
        }
    }
}

impl DemuxView {
    /// A demuxer that has seen nothing.
    pub open spec fn fresh() -> DemuxView {
        DemuxView {
            pat: None,
            pmt: None,
            pmt_pid: None,
            video_pid: None,
            audio_pid: None,
            video_codec: None,
            audio_codec: None,
            video: StreamView::fresh(),
            audio: StreamView::fresh(),
        }
    }

    /// The demuxer after it has looked at the first `n` streams of a program map: the
    /// first video and the first audio stream are chosen, and stay chosen.
    pub open spec fn with_streams(self, streams: Seq<PmtStream>, n: nat) -> DemuxView
        decreases n,
    {
        if n == 0 {
            self
        } else {
            let before = self.with_streams(streams, (n - 1) as nat);
            let codec = codec_of(streams[n - 1].stream_type);
            if codec.video() && before.video_pid is None {
                DemuxView {
                    video_pid: Some(streams[n - 1].pid),
                    video_codec: Some(codec),
                    ..before
                }
            } else if codec.audio() && before.audio_pid is None {
                DemuxView {
                    audio_pid: Some(streams[n - 1].pid),
                    audio_codec: Some(codec),
                    ..before
                }
            } else {
                before
            }
        }
    }

    /// The demuxer after one more packet of a video or audio stream.
    pub open spec fn media_step(self, p: TsPacketView) -> (DemuxView, Option<ErrorView>) {
        let (video, video_err) = self.video.step(p.pusi, p.payload);
        let one = if Some(p.pid) == self.video_pid {
            (DemuxView { video, ..self }, video_err)
        } else {
            (self, None)
        };
        let (audio, audio_err) = self.audio.step(p.pusi, p.payload);
        if one.1 is None && Some(p.pid) == self.audio_pid {
            (DemuxView { audio, ..one.0 }, audio_err)
        } else {
            one
        }
    }

    /// The demuxer after one more packet, and the error if it is broken.
    pub open spec fn step(self, p: TsPacketView) -> (DemuxView, Option<ErrorView>) {
        if p.pid == 0 {
            match pat_of(p.payload) {
                Err(e) => (self, Some(e)),
                Ok(programs) => (
                    DemuxView {
                        pat: Some(programs),
                        pmt_pid: if programs.len() > 0 {
                            Some(programs[0].1)
                        } else {
                            self.pmt_pid
                        },
                        ..self
                    },
                    None,
                ),
            }
        } else if Some(p.pid) == self.pmt_pid {
            match pmt_of(p.payload) {
                Err(e) => (self, Some(e)),
                Ok(pmt) => (
                    DemuxView {
                        pmt: Some(pmt),
                        ..self.with_streams(pmt.streams, pmt.streams.len())
                    },
                    None,
                ),
            }
        } else {
            self.media_step(p)
        }
    }

    /// What has been demuxed, with the last packets closed.
    pub open spec fn result(self) -> DemuxedView {
        DemuxedView {
            video_packets: self.video.closed_packet().packets,
            audio_packets: self.audio.closed_packet().packets,
            video_codec: self.video_codec,
            audio_codec: self.audio_codec,
            pmt: self.pmt,
        }
    }
}

impl TsDemuxer {
    /// A demuxer that has seen nothing.
    pub fn new() -> (d: TsDemuxer)
        ensures
            d@ == DemuxView::fresh(),
    {
        TsDemuxer {
            pat: None,
            pmt: None,
            pmt_pid: None,
            video_pid: None,
            audio_pid: None,
            video_codec: None,
            audio_codec: None,
            video: PesStream::new(),
            audio: PesStream::new(),
        }
    }

    /// Chooses the video and audio streams of a program map.
    fn choose_streams(&mut self, streams: &Vec<PmtStream>)
        ensures
            final(self)@ == old(self)@.with_streams(streams@, streams@.len()),
    {
        let ghost before = self@;
        let mut i: usize = 0;
        while i < streams.len()
            invariant
                i <= streams.len(),
                self@ == before.with_streams(streams@, i as nat),
            decreases streams.len() - i,
        {
            let codec: TsCodec = TsCodec::from_stream_type(streams[i].stream_type);
            if codec.is_video() && self.video_pid.is_none() {
                self.video_pid = Some(streams[i].pid);
                self.video_codec = Some(codec);
            } else if codec.is_audio() && self.audio_pid.is_none() {
                self.audio_pid = Some(streams[i].pid);
                self.audio_codec = Some(codec);
            }
            i = i + 1;
        }
    }

    /// Process a single TS packet, accumulating PES data.
    pub fn push_packet(&mut self, packet: &TsPacket) -> (r: Result<(), EdgepackError>)
        ensures
            (final(self)@, step_outcome(r)) == old(self)@.step(packet@),
    {
        if packet.pid == PAT_PID {
            match parse_pat(packet.payload.as_slice()) {
                Err(e) => {
                    return Err(e);
                },
                Ok(pat) => {
                    if pat.programs.len() > 0 {
                        self.pmt_pid = Some(pat.programs[0].1);
                    }
                    self.pat = Some(pat);
                    return Ok(());
                },
            }
        }
        let is_pmt: bool = match self.pmt_pid {
            Some(pid) => pid == packet.pid,
            None => false,
        };
        if is_pmt {
            match parse_pmt(packet.payload.as_slice()) {
                Err(e) => {
                    return Err(e);
                },
                Ok(pmt) => {
                    self.choose_streams(&pmt.streams);
                    self.pmt = Some(pmt);
                    return Ok(());
                },
            }
        }
        let is_video: bool = match self.video_pid {
            Some(pid) => pid == packet.pid,
            None => false,
        };
        let is_audio: bool = match self.audio_pid {
            Some(pid) => pid == packet.pid,
            None => false,
        };
        if is_video {
            match self.video.process_pes_packet(packet) {
                Err(e) => {
                    return Err(e);
                },
                Ok(_) => {},
            }
        }
        if is_audio {
            match self.audio.process_pes_packet(packet) {
                Err(e) => {
                    return Err(e);
                },
                Ok(_) => {},
            }
        }
        Ok(())
    }

    /// Flush remaining buffered data and return the demuxed segment.
    pub fn flush(self) -> (d: DemuxedSegment)
        ensures
            d@ == self@.result(),
    {
        let mut video: PesStream = self.video;
        let mut audio: PesStream = self.audio;
        video.close_packet();
        audio.close_packet();
        DemuxedSegment {
            video_packets: video.packets,
            audio_packets: audio.packets,
            video_codec: self.video_codec,
            audio_codec: self.audio_codec,
            pmt: self.pmt,
        }
    }
}

/// The demuxer after the packets of `s` from the `i`-th on. A packet without a sync byte
/// is skipped.
pub open spec fn demux_from(s: Seq<u8>, i: int, d: DemuxView) -> Result<DemuxView, ErrorView>
    decreases s.len() - i * 188,
{
    if i < 0 || i * 188 + 188 > s.len() {
        Ok(d)
    } else if s[i * 188] != 0x47 {
        demux_from(s, i + 1, d)
    } else {
        match packet_of(s.subrange(i * 188, i * 188 + 188)) {
            Err(e) => Err(e),
            Ok(p) => match d.step(p) {
                (_, Some(e)) => Err(e),
                (next, None) => demux_from(s, i + 1, next),
            },
        }
    }
}

/// The demuxed segment in `s`.
pub open spec fn demuxed_of(s: Seq<u8>) -> Result<DemuxedView, ErrorView> {
    match demux_from(s, 0, DemuxView::fresh()) {
        Ok(d) => Ok(d.result()),
        Err(e) => Err(e),
    }
}

/// Demux a complete TS segment into video and audio PES packets.
#[verifier::loop_isolation(false)]
pub fn demux_segment(data: &[u8]) -> (r: Result<DemuxedSegment, EdgepackError>)
    ensures
        cmaf::outcome_view(r) == demuxed_of(data@),
{
    let mut demuxer: TsDemuxer = TsDemuxer::new();
    let packet_count: usize = data.len() / TS_PACKET_SIZE;
    let mut i: usize = 0;
    while i < packet_count
        invariant
            i <= packet_count,
            packet_count == data.len() / 188,
            demux_from(data@, 0, DemuxView::fresh()) == demux_from(data@, i as int, demuxer@),
        decreases packet_count - i,
    {
        assert(i * 188 + 188 <= data.len());
        let start: usize = i * TS_PACKET_SIZE;
        let packet_data: &[u8] = &data[start..start + TS_PACKET_SIZE];
        if packet_data[0] == TS_SYNC_BYTE {
            match parse_ts_packet(packet_data) {
                Err(e) => {
                    return Err(e);
                },
                Ok(packet) => match demuxer.push_packet(&packet) {
                    Err(e) => {
                        return Err(e);
                    },
                    Ok(_) => {},
                },
            }
        }
        i = i + 1;
    }
    assert(i * 188 + 188 > data.len());
    Ok(demuxer.flush())
}

/// Whether `s` ends with PKCS#7 padding.
pub open spec fn padded(s: Seq<u8>) -> bool {
    &&& s.len() > 0
    &&& 1 <= s.last() <= 16
    &&& s.last() <= s.len()
    &&& forall|i: int| s.len() - s.last() <= i < s.len() ==> s[i] == s.last()
}

/// `s` without its PKCS#7 padding; `s` itself where it has none.
pub open spec fn unpadded(s: Seq<u8>) -> Seq<u8> {
    if padded(s) {
        s.take(s.len() - s.last())
    } else {
        s
    }
}

/// Removes PKCS#7 padding where there is any.
pub fn strip_padding(data: Vec<u8>) -> (out: Vec<u8>)
    ensures
        out@ == unpadded(data@),
{
    let mut out: Vec<u8> = data;
    let len: usize = out.len();
    if len == 0 {
        return out;
    }
    let last: u8 = out[len - 1];
    let pad: usize = last as usize;
    if pad == 0 || pad > 16 || pad > len {
        return out;
    }
    let mut i: usize = len - pad;
    while i < len
        invariant
            len - pad <= i <= len,
            out@ == data@,
            len == out@.len(),
            last == data@.last(),
            pad == last,
            1 <= pad <= 16,
            pad <= len,
            forall|k: int| len - pad <= k < i ==> data@[k] == last,
        decreases len - i,
    {
        if out[i] != last {
            assert(!padded(data@)) by {
                assert(data@[i as int] != data@.last());
            }
            return out;
        }
        i = i + 1;
    }
    assert(padded(data@));
    out.truncate(len - pad);
    assert(out@ =~= unpadded(data@));
    out
}

/// The clear TS segment behind an encrypted one.
pub open spec fn decrypted_segment(s: Seq<u8>, key: Seq<u8>, iv: Seq<u8>) -> Result<
    Seq<u8>,
    ErrorView,
> {
    if s.len() == 0 {
        Ok(Seq::empty())
    } else if s.len() % 16 != 0 {
        Err(
            ErrorView::Encryption(
                "AES-128-CBC data must be a multiple of 16 bytes, got "@ + text::dec(s.len()),
            ),
        )
    } else {
        Ok(unpadded(crypto::aes128_cbc_plain(key, iv, s)))
    }
}

/// Decrypt an AES-128-CBC encrypted TS segment.
///
/// HLS uses AES-128-CBC encryption on the entire TS segment (not per-sample).
/// The IV is typically the segment sequence number or explicitly signaled.
pub fn decrypt_ts_segment(data: &[u8], key: &[u8; 16], iv: &[u8; 16]) -> (r: Result<
    Vec<u8>,
    EdgepackError,
>)
    ensures
        cmaf::outcome_view(r) == decrypted_segment(data@, key@, iv@),
{
    if data.len() == 0 {
        let none: Vec<u8> = Vec::new();
        return Ok(none);
    }
    if data.len() % 16 != 0 {
        let mut message: String = "AES-128-CBC data must be a multiple of 16 bytes, got ".to_owned();
        text::put_dec(&mut message, data.len() as u64);
        return Err(EdgepackError::Encryption(message));
    }
    match crypto::aes128_cbc_decrypt(data, key, iv) {
        Ok(plain) => Ok(strip_padding(plain)),
        Err(_) => Err(EdgepackError::encryption("AES-128-CBC decryption failed: Unpad Error")),
    }
}

/// PES timestamps have 33 bits.
pub proof fn timestamps_have_33_bits(s: Seq<u8>, i: int)
    requires
        0 <= i,
        i + 5 <= s.len(),
    ensures
        timestamp_at(s, i) < 0x2_0000_0000,
{
}

proof fn lemma_streams_stay(d: DemuxView, streams: Seq<PmtStream>, n: nat)
    ensures
        ({
            let next = d.with_streams(streams, n);
            &&& d.video_pid is Some ==> next.video_pid == d.video_pid && next.video_codec
                == d.video_codec
            &&& d.audio_pid is Some ==> next.audio_pid == d.audio_pid && next.audio_codec
                == d.audio_codec
            &&& next.video == d.video
            &&& next.audio == d.audio
        }),
    decreases n,
{
    if n > 0 {
        lemma_streams_stay(d, streams, (n - 1) as nat);
    }
}

/// Once a video or an audio stream has been chosen it stays chosen, whatever packets follow.
pub proof fn chosen_streams_stay(d: DemuxView, p: TsPacketView)
    ensures
        ({
            let next = d.step(p).0;
            &&& d.video_pid is Some ==> next.video_pid == d.video_pid && next.video_codec
                == d.video_codec
            &&& d.audio_pid is Some ==> next.audio_pid == d.audio_pid && next.audio_codec
                == d.audio_codec
        }),
{
    if let Ok(pmt) = pmt_of(p.payload) {
        lemma_streams_stay(d, pmt.streams, pmt.streams.len());
    }
}

/// A PES packet that has ended is never touched again: the packets of a stream only grow at
/// the end.
pub proof fn ended_packets_stay(d: DemuxView, p: TsPacketView)
    ensures
        ({
            let next = d.step(p).0;
            &&& d.video.packets.is_prefix_of(next.video.packets)
            &&& d.audio.packets.is_prefix_of(next.audio.packets)
        }),
{
    if let Ok(pmt) = pmt_of(p.payload) {
        lemma_streams_stay(d, pmt.streams, pmt.streams.len());
    }
}

/// PKCS#7 padding of one to sixteen bytes comes off.
pub proof fn padding_comes_off(x: Seq<u8>, n: u8)
    requires
        1 <= n <= 16,
    ensures
        unpadded(x + Seq::new(n as nat, |i: int| n)) == x,
{
    let s = x + Seq::new(n as nat, |i: int| n);
    assert(s.last() == n);
    assert(padded(s));
    assert(unpadded(s) =~= x);
}

/// Decrypting a segment that was padded to whole blocks and encrypted gives the segment back,
/// where the plaintext of the ciphertext is what was encrypted.
pub proof fn decrypted_segment_is_the_source(
    x: Seq<u8>,
    n: u8,
    s: Seq<u8>,
    key: Seq<u8>,
    iv: Seq<u8>,
)
    requires
        1 <= n <= 16,
        (x.len() + n) % 16 == 0,
        s == crypto::aes128_cbc_cipher(key, iv, x + Seq::new(n as nat, |i: int| n)),
        s.len() == x.len() + n,
        crypto::aes128_cbc_plain(key, iv, s) == x + Seq::new(n as nat, |i: int| n),
    ensures
        decrypted_segment(s, key, iv) == Ok::<Seq<u8>, ErrorView>(x),
{
    padding_comes_off(x, n);
}

} // verus!
