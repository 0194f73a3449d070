//! Media structures: ISO base media boxes, codecs, transport streams.

pub mod box_type;
pub mod chunk;
pub mod chunked;
pub mod cmaf;
pub mod codec;
pub mod coded;
pub mod compat;
pub mod container;
pub mod described;
pub mod entries;
pub mod found;
pub mod fragment;
pub mod headers;
pub mod init;
pub mod kept;
pub mod keyed;
pub mod measured;
pub mod muxed;
pub mod names;
pub mod placed;
pub mod protection;
pub mod ranges;
pub mod records;
pub mod round_trip;
pub mod scte35;
pub mod segment;
pub mod synthesis;
pub mod transmux;
pub mod ts;
pub mod verdicts;

use vstd::prelude::*;

verus! {

/// Four-character code (FourCC) used to identify MP4 box types.
pub type FourCC = [u8; 4];

/// Track types as identified by the handler type in hdlr box.
#[derive(Debug, Clone, Copy, PartialEq, Eq, Structural)]
pub enum TrackType {
    Video,
    Audio,
    Subtitle,
    Unknown,
}

/// The track type that a handler code stands for.
pub open spec fn handler_track_type(handler: Seq<u8>) -> TrackType {
    if handler == seq![0x76u8, 0x69, 0x64, 0x65] {
        TrackType::Video
    } else if handler == seq![0x73u8, 0x6f, 0x75, 0x6e] {
        TrackType::Audio
    } else if handler == seq![0x73u8, 0x75, 0x62, 0x74] || handler == seq![
        0x74u8,
        0x65,
        0x78,
        0x74,
    ] {
        TrackType::Subtitle
    } else {
        TrackType::Unknown
    }
}

/// Whether two codes are the same four bytes.
pub fn same_code(a: &FourCC, b: &FourCC) -> (same: bool)
    ensures
        same == (a@ == b@),
{
    let same: bool = a[0] == b[0] && a[1] == b[1] && a[2] == b[2] && a[3] == b[3];
    if same {
        assert(a@ =~= b@);
    }
    same
}

impl TrackType {
    /// Maps "vide", "soun" and "subt"/"text" to a track type.
    pub fn from_handler(handler: &FourCC) -> (kind: TrackType)
        ensures
            kind == handler_track_type(handler@),
    {
        if same_code(handler, &[0x76u8, 0x69, 0x64, 0x65]) {
            assert([0x76u8, 0x69, 0x64, 0x65]@ =~= seq![0x76u8, 0x69, 0x64, 0x65]);
            TrackType::Video
        } else if same_code(handler, &[0x73u8, 0x6f, 0x75, 0x6e]) {
            assert([0x73u8, 0x6f, 0x75, 0x6e]@ =~= seq![0x73u8, 0x6f, 0x75, 0x6e]);
            TrackType::Audio
        } else if same_code(handler, &[0x73u8, 0x75, 0x62, 0x74]) || same_code(
            handler,
            &[0x74u8, 0x65, 0x78, 0x74],
        ) {
            assert([0x73u8, 0x75, 0x62, 0x74]@ =~= seq![0x73u8, 0x75, 0x62, 0x74]);
            assert([0x74u8, 0x65, 0x78, 0x74]@ =~= seq![0x74u8, 0x65, 0x78, 0x74]);
            TrackType::Subtitle
        } else {
            assert([0x76u8, 0x69, 0x64, 0x65]@ =~= seq![0x76u8, 0x69, 0x64, 0x65]);
            assert([0x73u8, 0x6f, 0x75, 0x6e]@ =~= seq![0x73u8, 0x6f, 0x75, 0x6e]);
            assert([0x73u8, 0x75, 0x62, 0x74]@ =~= seq![0x73u8, 0x75, 0x62, 0x74]);
            assert([0x74u8, 0x65, 0x78, 0x74]@ =~= seq![0x74u8, 0x65, 0x78, 0x74]);
            TrackType::Unknown
        }
    }
}

} // verus!
