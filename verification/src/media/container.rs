//! Container formats: file extensions, brands and profiles.

use crate::bytes;
use crate::media::box_type;
use crate::media::cmaf;
use crate::media::FourCC;
use crate::text;
use vstd::prelude::*;

verus! {

/// Container format for media output.
///
/// Determines segment file extensions, ftyp box brands, and DASH profile signaling.
/// The ISOBMFF formats (ISO 14496-12) produce identical moof/mdat structures;
/// the difference is in metadata signaling and naming conventions.
///
/// CMAF is the default.
#[derive(Debug, Clone, Copy, PartialEq, Eq, Hash, Structural)]
pub enum ContainerFormat {
    /// CMAF: Common Media Application Format (ISO/IEC 23000-19).
    /// Uses `cmfc` compatible brand, `.cmfv`/`.cmfa` segment extensions.
    Cmaf,
    /// fMP4: Fragmented MP4 (ISO 14496-12).
    /// Uses `iso6` compatible brands only, `.m4s` segment extensions.
    Fmp4,
    /// ISO BMFF: ISO Base Media File Format (ISO 14496-12).
    /// Uses `iso6` compatible brands only, `.mp4` segment extensions.
    Iso,
    /// MPEG transport stream, for HLS only. Not an ISOBMFF format.
    Ts,
}

pub open spec fn isom() -> Seq<u8> {
    seq![0x69u8, 0x73, 0x6f, 0x6d]
}

pub open spec fn iso6() -> Seq<u8> {
    seq![0x69u8, 0x73, 0x6f, 0x36]
}

pub open spec fn cmfc() -> Seq<u8> {
    seq![0x63u8, 0x6d, 0x66, 0x63]
}

impl ContainerFormat {
    /// The video segment extension.
    pub open spec fn video_extension(self) -> Seq<char> {
        match self {
            ContainerFormat::Cmaf => ".cmfv"@,
            ContainerFormat::Fmp4 => ".m4s"@,
            ContainerFormat::Iso => ".mp4"@,
            ContainerFormat::Ts => ".ts"@,
        }
    }

    /// The audio segment extension.
    pub open spec fn audio_extension(self) -> Seq<char> {
        match self {
            ContainerFormat::Cmaf => ".cmfa"@,
            ContainerFormat::Fmp4 => ".m4s"@,
            ContainerFormat::Iso => ".mp4"@,
            ContainerFormat::Ts => ".ts"@,
        }
    }

    /// The compatible brands in order.
    pub open spec fn brands(self) -> Seq<Seq<u8>> {
        if self is Cmaf {
            seq![isom(), iso6(), cmfc()]
        } else {
            seq![isom(), iso6()]
        }
    }

    /// The ftyp box: major brand, minor version 0x200, compatible brands.
    pub open spec fn ftyp(self) -> Seq<u8> {
        cmaf::boxed(
            box_type::FTYP@,
            isom() + bytes::bytes32(0x200) + cmaf::joined(self.brands(), self.brands().len()),
        )
    }

    /// The DASH profiles.
    pub open spec fn profiles(self) -> Seq<char> {
        if self is Cmaf {
            "urn:mpeg:dash:profile:isoff-live:2011,urn:mpeg:dash:profile:cmaf:2019"@
        } else {
            "urn:mpeg:dash:profile:isoff-live:2011"@
        }
    }

    /// The name of the format.
    pub open spec fn name(self) -> Seq<char> {
        match self {
            ContainerFormat::Cmaf => "cmaf"@,
            ContainerFormat::Fmp4 => "fmp4"@,
            ContainerFormat::Iso => "iso"@,
            ContainerFormat::Ts => "ts"@,
        }
    }

    /// Video segment file extension.
    ///
    /// Returns `".cmfv"` for CMAF, `".m4s"` for fMP4, `".mp4"` for ISO BMFF.
    pub fn video_segment_extension(&self) -> (ext: &'static str)
        ensures
            ext@ == self.video_extension(),
    {
        match self {
            ContainerFormat::Cmaf => ".cmfv",
            ContainerFormat::Fmp4 => ".m4s",
            ContainerFormat::Iso => ".mp4",
            ContainerFormat::Ts => ".ts",
        }
    }

    /// Audio segment file extension.
    pub fn audio_segment_extension(&self) -> (ext: &'static str)
        ensures
            ext@ == self.audio_extension(),
    {
        match self {
            ContainerFormat::Cmaf => ".cmfa",
            ContainerFormat::Fmp4 => ".m4s",
            ContainerFormat::Iso => ".mp4",
            ContainerFormat::Ts => ".ts",
        }
    }

    /// Init segment file extension: `".mp4"` for every format.
    pub fn init_extension(&self) -> (ext: &'static str)
        ensures
            ext@ == ".mp4"@,
    {
        ".mp4"
    }

    /// Whether segments are ISO base media files.
    pub fn is_isobmff(&self) -> (yes: bool)
        ensures
            yes == !(self is Ts),
    {
        match self {
            ContainerFormat::Ts => false,
            _ => true,
        }
    }

    /// Major brand for the ftyp box: "isom" for every format.
    pub fn major_brand(&self) -> (brand: FourCC)
        ensures
            brand@ == isom(),
    {
        let brand: FourCC = [0x69, 0x73, 0x6f, 0x6d];
        assert(brand@ =~= isom());
        brand
    }

    /// Compatible brands for the ftyp box.
    ///
    /// CMAF includes `cmfc` brand; fMP4 and ISO BMFF do not.
    pub fn compatible_brands(&self) -> (brands: Vec<FourCC>)
        ensures
            brands@.map_values(|b: FourCC| b@) == self.brands(),
    {
        let mut brands: Vec<FourCC> = Vec::new();
        let b0: FourCC = [0x69, 0x73, 0x6f, 0x6d];
        let b1: FourCC = [0x69, 0x73, 0x6f, 0x36];
        let b2: FourCC = [0x63, 0x6d, 0x66, 0x63];
        assert(b0@ =~= isom());
        assert(b1@ =~= iso6());
        assert(b2@ =~= cmfc());
        brands.push(b0);
        brands.push(b1);
        match self {
            ContainerFormat::Cmaf => {
                brands.push(b2);
            },
            _ => {},
        }
        assert(brands@.map_values(|b: FourCC| b@) =~= self.brands());
        brands
    }

    /// Build a complete ftyp box for this container format.
    ///
    /// Structure: box_header(8) + major_brand(4) + minor_version(4) + compatible_brands(4*n)
    pub fn build_ftyp(&self) -> (out: Vec<u8>)
        ensures
            out@ == self.ftyp(),
    {
        let brands: Vec<FourCC> = self.compatible_brands();
        let ghost views = brands@.map_values(|b: FourCC| b@);
        let mut inner: Vec<u8> = Vec::new();
        bytes::put_bytes(&mut inner, self.major_brand().as_slice());
        assert(inner@ =~= isom());
        bytes::put_u32(&mut inner, 0x200);
        let ghost start = inner@;
        let mut i: usize = 0;
        while i < brands.len()
            invariant
                i <= brands.len(),
                views == brands@.map_values(|b: FourCC| b@),
                inner@ == start + cmaf::joined(views, i as nat),
            decreases brands.len() - i,
        {
            bytes::put_bytes(&mut inner, brands[i].as_slice());
            assert(views[i as int] == brands@[i as int]@);
            i = i + 1;
            assert(inner@ =~= start + cmaf::joined(views, i as nat));
        }
        cmaf::make_box(&box_type::FTYP, inner.as_slice())
    }

    /// DASH MPD profiles attribute value.
    ///
    /// CMAF includes the CMAF profile; fMP4 and ISO BMFF use only the DASH live profile.
    pub fn dash_profiles(&self) -> (profiles: &'static str)
        ensures
            profiles@ == self.profiles(),
    {
        match self {
            ContainerFormat::Cmaf => {
                "urn:mpeg:dash:profile:isoff-live:2011,urn:mpeg:dash:profile:cmaf:2019"
            },
            _ => "urn:mpeg:dash:profile:isoff-live:2011",
        }
    }

    /// Parse a string value to a ContainerFormat.
    ///
    /// Accepts `"cmaf"`, `"fmp4"`, or `"iso"`. Returns `None` for unrecognized values.
    pub fn from_str_value(s: &str) -> (format: Option<ContainerFormat>)
        ensures
            format == format_named(s@),
    {
        if text::same_text(s, "cmaf") {
            Some(ContainerFormat::Cmaf)
        } else if text::same_text(s, "fmp4") {
            Some(ContainerFormat::Fmp4)
        } else if text::same_text(s, "iso") {
            Some(ContainerFormat::Iso)
        } else {
            None
        }
    }

    /// The name of the format.
    pub fn as_str(&self) -> (name: &'static str)
        ensures
            name@ == self.name(),
    {
        match self {
            ContainerFormat::Cmaf => "cmaf",
            ContainerFormat::Fmp4 => "fmp4",
            ContainerFormat::Iso => "iso",
            ContainerFormat::Ts => "ts",
        }
    }

    /// The name of the format as an owned string.
    pub fn to_string(&self) -> (name: String)
        ensures
            name@ == self.name(),
    {
        self.as_str().to_owned()
    }
}

/// The format that a value names.
pub open spec fn format_named(s: Seq<char>) -> Option<ContainerFormat> {
    if s == "cmaf"@ {
        Some(ContainerFormat::Cmaf)
    } else if s == "fmp4"@ {
        Some(ContainerFormat::Fmp4)
    } else if s == "iso"@ {
        Some(ContainerFormat::Iso)
    } else {
        None
    }
}

/// Every ISO BMFF format is found again by its name; that of transport streams names none.
pub proof fn names_are_read_back(format: ContainerFormat)
    ensures
        format_named(format.name()) == if format is Ts {
            None
        } else {
            Some(format)
        },
{
    reveal_strlit("cmaf");
    reveal_strlit("fmp4");
    reveal_strlit("iso");
    reveal_strlit("ts");
    assert("cmaf"@[0] != "fmp4"@[0]);
    assert("cmaf"@.len() != "iso"@.len());
    assert("fmp4"@.len() != "iso"@.len());
}

/// The CMAF brand is among the compatible brands of CMAF and of no other format.
pub proof fn only_cmaf_has_the_cmaf_brand(format: ContainerFormat)
    ensures
        format.brands().contains(cmfc()) <==> format is Cmaf,
{
    assert(isom()[0] != cmfc()[0]);
    assert(iso6()[0] != cmfc()[0]);
    if format is Cmaf {
        assert(format.brands()[2] == cmfc());
    }
}

impl Default for ContainerFormat {
    fn default() -> (format: ContainerFormat)
        ensures
            format == ContainerFormat::Cmaf,
    {
        ContainerFormat::Cmaf
    }
}

} // verus!
