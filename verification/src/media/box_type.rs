//! Well-known box type constants.

use crate::media::FourCC;
use vstd::prelude::*;

verus! {

pub const FTYP: FourCC = [0x66, 0x74, 0x79, 0x70];
pub const MOOV: FourCC = [0x6d, 0x6f, 0x6f, 0x76];
pub const MVHD: FourCC = [0x6d, 0x76, 0x68, 0x64];
pub const TRAK: FourCC = [0x74, 0x72, 0x61, 0x6b];
pub const TKHD: FourCC = [0x74, 0x6b, 0x68, 0x64];
pub const MDIA: FourCC = [0x6d, 0x64, 0x69, 0x61];
pub const MDHD: FourCC = [0x6d, 0x64, 0x68, 0x64];
pub const HDLR: FourCC = [0x68, 0x64, 0x6c, 0x72];
pub const MINF: FourCC = [0x6d, 0x69, 0x6e, 0x66];
pub const STBL: FourCC = [0x73, 0x74, 0x62, 0x6c];
pub const STSD: FourCC = [0x73, 0x74, 0x73, 0x64];
pub const SINF: FourCC = [0x73, 0x69, 0x6e, 0x66];
pub const FRMA: FourCC = [0x66, 0x72, 0x6d, 0x61];
pub const SCHM: FourCC = [0x73, 0x63, 0x68, 0x6d];
pub const SCHI: FourCC = [0x73, 0x63, 0x68, 0x69];
pub const TENC: FourCC = [0x74, 0x65, 0x6e, 0x63];
pub const PSSH: FourCC = [0x70, 0x73, 0x73, 0x68];
pub const MOOF: FourCC = [0x6d, 0x6f, 0x6f, 0x66];
pub const MFHD: FourCC = [0x6d, 0x66, 0x68, 0x64];
pub const TRAF: FourCC = [0x74, 0x72, 0x61, 0x66];
pub const TFHD: FourCC = [0x74, 0x66, 0x68, 0x64];
pub const TFDT: FourCC = [0x74, 0x66, 0x64, 0x74];
pub const TRUN: FourCC = [0x74, 0x72, 0x75, 0x6e];
pub const SENC: FourCC = [0x73, 0x65, 0x6e, 0x63];
pub const SAIZ: FourCC = [0x73, 0x61, 0x69, 0x7a];
pub const SAIO: FourCC = [0x73, 0x61, 0x69, 0x6f];
pub const MDAT: FourCC = [0x6d, 0x64, 0x61, 0x74];
pub const SBGP: FourCC = [0x73, 0x62, 0x67, 0x70];
pub const SGPD: FourCC = [0x73, 0x67, 0x70, 0x64];
pub const MVEX: FourCC = [0x6d, 0x76, 0x65, 0x78];
pub const TREX: FourCC = [0x74, 0x72, 0x65, 0x78];
pub const EDTS: FourCC = [0x65, 0x64, 0x74, 0x73];
pub const EMSG: FourCC = [0x65, 0x6d, 0x73, 0x67];
pub const SIDX: FourCC = [0x73, 0x69, 0x64, 0x78];

} // verus!
