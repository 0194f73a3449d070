//! SCTE-35 splice information.

use crate::bytes;
use crate::decimal;
use crate::decimal::Decimal;
use crate::error::{EdgepackError, ErrorView};
use crate::media::cmaf;
use crate::media::cmaf::EmsgBox;
use crate::text;
use vstd::prelude::*;

verus! {

/// SCTE-35 scheme ID URI for binary splice info in emsg boxes.
pub const SCTE35_SCHEME_URI: &'static str = "urn:scte:scte35:2013:bin";

/// Alternative SCTE-35 scheme URIs that should also be recognized.
pub const SCTE35_XML_SCHEME_URI: &'static str = "urn:scte:scte35:2014:xml+bin";

/// Splice command type: splice_insert (ad boundary).
pub const SPLICE_INSERT: u8 = 0x05;

/// Splice command type: time_signal (cue point).
pub const TIME_SIGNAL: u8 = 0x06;

/// Parsed SCTE-35 splice information from an emsg box.
#[derive(Debug, Clone, Copy)]
pub struct Scte35SpliceInfo {
    /// Splice command type (0x05 = splice_insert, 0x06 = time_signal).
    pub splice_command_type: u8,
    /// PTS time from splice_time() (33-bit PTS value, in 90kHz ticks).
    pub pts_time: Option<u64>,
    /// Break duration in seconds (from break_duration()).
    pub break_duration: Option<Decimal>,
    /// Splice event ID (from splice_insert).
    pub splice_event_id: u32,
    /// True = start of ad (out of network), false = return to content.
    pub out_of_network: bool,
    /// Unique program ID.
    pub unique_program_id: u16,
}

/// Check if an emsg box carries SCTE-35 splice information.
pub fn is_scte35_emsg(emsg: &EmsgBox) -> (yes: bool)
    ensures
        yes == (emsg.scheme_id_uri@ == SCTE35_SCHEME_URI@ || emsg.scheme_id_uri@
            == SCTE35_XML_SCHEME_URI@),
{
    text::same_text(emsg.scheme_id_uri.as_str(), SCTE35_SCHEME_URI) || text::same_text(
        emsg.scheme_id_uri.as_str(),
        SCTE35_XML_SCHEME_URI,
    )
}

/// The 33-bit number in five bytes: the lowest bit of the first byte, then four bytes.
pub open spec fn ticks33(s: Seq<u8>, off: int) -> u64 {
    ((s[off] % 2) * 0x1_0000_0000 + bytes::be32(s, off + 1)) as u64
}

fn read_ticks33(data: &[u8], off: usize) -> (v: u64)
    requires
        off + 5 <= data.len(),
    ensures
        v == ticks33(data@, off as int),
{
    (data[off] % 2) as u64 * 0x1_0000_0000 + bytes::read_u32(data, off + 1) as u64
}

/// What is known of a command that carries nothing else.
pub open spec fn bare_info(command: u8, event_id: u32) -> Scte35SpliceInfo {
    Scte35SpliceInfo {
        splice_command_type: command,
        pts_time: None,
        break_duration: None,
        splice_event_id: event_id,
        out_of_network: false,
        unique_program_id: 0,
    }
}

/// The splice_time() of a splice_insert command and where the next field starts. It is
/// there when the whole program is spliced at a given time.
pub open spec fn splice_time(s: Seq<u8>) -> (Option<u64>, int) {
    let program_splice = (s[5] / 64) % 2 == 1;
    let immediate = (s[5] / 16) % 2 == 1;
    if !program_splice || immediate {
        (None, 6)
    } else if s[6] >= 128 && 11 <= s.len() {
        (Some(ticks33(s, 6)), 11)
    } else {
        (None, 7)
    }
}

/// The splice_insert command in `s`.
pub open spec fn splice_insert_of(s: Seq<u8>) -> Result<Scte35SpliceInfo, ErrorView> {
    if s.len() < 5 {
        cmaf::parse_err("SCTE-35 splice_insert too small")
    } else if s[4] >= 128 {
        Ok(bare_info(SPLICE_INSERT, bytes::be32(s, 0)))
    } else if s.len() < 10 {
        cmaf::parse_err("SCTE-35 splice_insert too small for event data")
    } else {
        let (pts_time, at) = splice_time(s);
        let timed = (s[5] / 32) % 2 == 1 && at + 5 <= s.len();
        let end = if timed {
            at + 5
        } else {
            at
        };
        Ok(
            Scte35SpliceInfo {
                splice_command_type: SPLICE_INSERT,
                pts_time,
                break_duration: if timed {
                    Some(decimal::of_ticks(ticks33(s, at) as nat, 90000))
                } else {
                    None
                },
                splice_event_id: bytes::be32(s, 0),
                out_of_network: s[5] >= 128,
                unique_program_id: if end + 2 <= s.len() {
                    bytes::be16(s, end)
                } else {
                    0
                },
            },
        )
    }
}

/// Parse a splice_insert command.
pub fn parse_splice_insert(data: &[u8]) -> (r: Result<Scte35SpliceInfo, EdgepackError>)
    ensures
        cmaf::outcome(r) == splice_insert_of(data@),
{
    if data.len() < 5 {
        return Err(EdgepackError::media_parse("SCTE-35 splice_insert too small"));
    }
    let splice_event_id: u32 = bytes::read_u32(data, 0);
    if data[4] >= 128 {
        return Ok(
            Scte35SpliceInfo {
                splice_command_type: SPLICE_INSERT,
                pts_time: None,
                break_duration: None,
                splice_event_id,
                out_of_network: false,
                unique_program_id: 0,
            },
        );
    }
    if data.len() < 10 {
        return Err(EdgepackError::media_parse("SCTE-35 splice_insert too small for event data"));
    }
    let flags: u8 = data[5];
    let out_of_network: bool = flags >= 128;
    let program_splice_flag: bool = (flags / 64) % 2 == 1;
    let duration_flag: bool = (flags / 32) % 2 == 1;
    let splice_immediate_flag: bool = (flags / 16) % 2 == 1;
    let mut offset: usize = 6;
    let mut pts_time: Option<u64> = None;
    if program_splice_flag && !splice_immediate_flag {
        if data[6] >= 128 && data.len() >= 11 {
            pts_time = Some(read_ticks33(data, 6));
            offset = 11;
        } else {
            offset = 7;
        }
    }
    let mut break_duration: Option<Decimal> = None;
    if duration_flag && data.len() - offset >= 5 {
        break_duration = Some(Decimal::from_ticks(read_ticks33(data, offset), 90000));
        offset = offset + 5;
    }
    let unique_program_id: u16 = if data.len() - offset >= 2 {
        bytes::read_u16(data, offset)
    } else {
        0
    };
    Ok(
        Scte35SpliceInfo {
            splice_command_type: SPLICE_INSERT,
            pts_time,
            break_duration,
            splice_event_id,
            out_of_network,
            unique_program_id,
        },
    )
}

/// The time_signal command in `s`.
pub open spec fn time_signal_of(s: Seq<u8>) -> Scte35SpliceInfo {
    Scte35SpliceInfo {
        pts_time: if s.len() >= 5 && s[0] >= 128 {
            Some(ticks33(s, 0))
        } else {
            None
        },
        ..bare_info(TIME_SIGNAL, 0)
    }
}

/// Parse a time_signal command.
pub fn parse_time_signal(data: &[u8]) -> (r: Result<Scte35SpliceInfo, EdgepackError>)
    ensures
        cmaf::outcome(r) == Ok::<Scte35SpliceInfo, ErrorView>(time_signal_of(data@)),
{
    let mut pts_time: Option<u64> = None;
    if data.len() >= 5 && data[0] >= 128 {
        pts_time = Some(read_ticks33(data, 0));
    }
    Ok(
        Scte35SpliceInfo {
            splice_command_type: TIME_SIGNAL,
            pts_time,
            break_duration: None,
            splice_event_id: 0,
            out_of_network: false,
            unique_program_id: 0,
        },
    )
}

/// The splice information in a splice_info_section.
pub open spec fn splice_info_of(s: Seq<u8>) -> Result<Scte35SpliceInfo, ErrorView> {
    if s.len() < 3 {
        cmaf::parse_err("SCTE-35 splice_info_section too small")
    } else if s[0] != 0xFC {
        Err(
            ErrorView::MediaParse(
                "SCTE-35 invalid table_id: 0x"@ + text::hex2_upper(s[0]) + " (expected 0xFC)"@,
            ),
        )
    } else {
        let section_end = 3 + (s[1] % 16) * 0x100 + s[2];
        if section_end > s.len() {
            cmaf::parse_err("SCTE-35 section_length exceeds data")
        } else if s.len() < 14 {
            cmaf::parse_err("SCTE-35 too small for header fields")
        } else if s[4] >= 128 {
            cmaf::parse_err("SCTE-35 encrypted packets not supported")
        } else {
            let length = (s[11] % 16) * 0x100 + s[12];
            // An all-ones length is unknown: the command runs up to the checksum.
            let end = if length == 0xFFF {
                section_end - 4
            } else {
                14 + length
            };
            if end > s.len() {
                cmaf::parse_err("SCTE-35 splice command extends beyond data")
            } else {
                let command = bytes::clamped(s, 14, end);
                if s[13] == SPLICE_INSERT {
                    splice_insert_of(command)
                } else if s[13] == TIME_SIGNAL {
                    Ok(time_signal_of(command))
                } else {
                    Ok(bare_info(s[13], 0))
                }
            }
        }
    }
}

/// Parse a SCTE-35 splice_info_section from binary data.
///
/// Handles splice_insert (0x05) and time_signal (0x06) commands.
/// Other command types are parsed minimally (command type + event_id=0).
pub fn parse_splice_info(data: &[u8]) -> (r: Result<Scte35SpliceInfo, EdgepackError>)
    ensures
        cmaf::outcome(r) == splice_info_of(data@),
{
    if data.len() < 3 {
        return Err(EdgepackError::media_parse("SCTE-35 splice_info_section too small"));
    }
    let table_id: u8 = data[0];
    if table_id != 0xFC {
        let mut message: String = "SCTE-35 invalid table_id: 0x".to_owned();
        text::put_hex2_upper(&mut message, table_id);
        message.push_str(" (expected 0xFC)");
        return Err(EdgepackError::MediaParse(message));
    }
    let section_end: usize = 3 + (data[1] % 16) as usize * 0x100 + data[2] as usize;
    if section_end > data.len() {
        return Err(EdgepackError::media_parse("SCTE-35 section_length exceeds data"));
    }
    if data.len() < 14 {
        return Err(EdgepackError::media_parse("SCTE-35 too small for header fields"));
    }
    if data[4] >= 128 {
        return Err(EdgepackError::media_parse("SCTE-35 encrypted packets not supported"));
    }
    let splice_command_length: usize = (data[11] % 16) as usize * 0x100 + data[12] as usize;
    let splice_command_type: u8 = data[13];
    let end: usize = if splice_command_length == 0xFFF {
        if section_end >= 4 {
            section_end - 4
        } else {
            0
        }
    } else {
        14 + splice_command_length
    };
    if end > data.len() {
        return Err(EdgepackError::media_parse("SCTE-35 splice command extends beyond data"));
    }
    let command: &[u8] = bytes::slice_clamped(data, 14, end);
    if splice_command_type == SPLICE_INSERT {
        parse_splice_insert(command)
    } else if splice_command_type == TIME_SIGNAL {
        parse_time_signal(command)
    } else {
        Ok(
            Scte35SpliceInfo {
                splice_command_type,
                pts_time: None,
                break_duration: None,
                splice_event_id: 0,
                out_of_network: false,
                unique_program_id: 0,
            },
        )
    }
}

} // verus!
