//! Checks of what can be played: codecs, schemes, containers and segment structure.

use crate::chars;
use crate::drm::scheme::EncryptionScheme;
use crate::error::ErrorView;
use crate::manifest::types::OutputFormat;
use crate::media::box_type;
use crate::media::cmaf;
use crate::media::cmaf::BoxHeader;
use crate::media::codec;
use crate::media::codec::{TrackInfo, TrackView};
use crate::media::container::ContainerFormat;
use crate::media::same_code;
use crate::text;
use vstd::prelude::*;

verus! {

/// Result of a validation check.
#[derive(Debug, Clone)]
pub struct ValidationResult {
    pub valid: bool,
    pub warnings: Vec<String>,
    pub errors: Vec<String>,
}

/// The content of a [`ValidationResult`].
pub struct ValidationView {
    pub valid: bool,
    pub warnings: Seq<Seq<char>>,
    pub errors: Seq<Seq<char>>,
}

/// The contents of a list of messages.
pub open spec fn messages(list: Seq<String>) -> Seq<Seq<char>> {
    list.map_values(|m: String| m@)
}

impl View for ValidationResult {
    type V = ValidationView;

    open spec fn view(&self) -> ValidationView {
        ValidationView {
            valid: self.valid,
            warnings: messages(self.warnings@),
            errors: messages(self.errors@),
        }
    }
}

impl ValidationView {
    /// Nothing found.
    pub open spec fn passed() -> ValidationView {
        ValidationView { valid: true, warnings: Seq::empty(), errors: Seq::empty() }
    }

    /// With one more warning.
    pub open spec fn warn(self, message: Seq<char>) -> ValidationView {
        ValidationView { warnings: self.warnings.push(message), ..self }
    }

    /// With one more error.
    pub open spec fn fail(self, message: Seq<char>) -> ValidationView {
        ValidationView {
            valid: false,
            warnings: self.warnings,
            errors: self.errors.push(message),
        }
    }

    /// With everything that another check found.
    pub open spec fn merged(self, other: ValidationView) -> ValidationView {
        ValidationView {
            valid: self.valid && other.valid,
            warnings: self.warnings + other.warnings,
            errors: self.errors + other.errors,
        }
    }
}

/// Appends copies of messages.
fn append(list: &mut Vec<String>, more: &Vec<String>)
    ensures
        messages(final(list)@) == messages(old(list)@) + messages(more@),
{
    let ghost start = list@;
    let mut i: usize = 0;
    assert(messages(list@) =~= messages(start) + messages(more@.subrange(0, 0)));
    while i < more.len()
        invariant
            i <= more.len(),
            messages(list@) == messages(start) + messages(more@.subrange(0, i as int)),
        decreases more.len() - i,
    {
        let ghost before = list@;
        list.push(more[i].clone());
        assert(messages(list@) =~= messages(before).push(more@[i as int]@));
        i = i + 1;
        assert(messages(more@.subrange(0, i as int)) =~= messages(
            more@.subrange(0, i - 1),
        ).push(more@[i - 1]@));
        assert(messages(list@) =~= messages(start) + messages(more@.subrange(0, i as int)));
    }
    assert(more@.subrange(0, more@.len() as int) =~= more@);
}

impl ValidationResult {
    /// Nothing found.
    pub fn ok() -> (r: ValidationResult)
        ensures
            r@ == ValidationView::passed(),
    {
        let r: ValidationResult = ValidationResult {
            valid: true,
            warnings: Vec::new(),
            errors: Vec::new(),
        };
        assert(r@.warnings =~= Seq::empty());
        assert(r@.errors =~= Seq::empty());
        r
    }

    /// With one more warning.
    pub fn with_warning(self, msg: &str) -> (r: ValidationResult)
        ensures
            r@ == self@.warn(msg@),
    {
        let mut warnings: Vec<String> = self.warnings;
        warnings.push(msg.to_owned());
        assert(messages(warnings@) =~= messages(self.warnings@).push(msg@));
        ValidationResult { valid: self.valid, warnings, errors: self.errors }
    }

    /// With one more error.
    pub fn with_error(self, msg: &str) -> (r: ValidationResult)
        ensures
            r@ == self@.fail(msg@),
    {
        let mut errors: Vec<String> = self.errors;
        errors.push(msg.to_owned());
        assert(messages(errors@) =~= messages(self.errors@).push(msg@));
        ValidationResult { valid: false, warnings: self.warnings, errors }
    }

    /// Adds everything that another check found.
    pub fn merge(&mut self, other: ValidationResult)
        ensures
            final(self)@ == old(self)@.merged(other@),
    {
        if !other.valid {
            self.valid = false;
        }
        append(&mut self.warnings, &other.warnings);
        append(&mut self.errors, &other.errors);
    }
}

/// HDR format detected from codec string.
#[derive(Debug, Clone, Copy, PartialEq, Eq, Structural)]
pub enum HdrFormat {
    /// HEVC Main 10 profile (HDR10 or HDR10+).
    Hdr10,
    /// Dolby Vision (dvhe/dvav prefix).
    DolbyVision,
    /// HLG (Hybrid Log-Gamma), HEVC Main 10 with HLG transfer.
    Hlg,
}

/// `s` without what is no digit at its end.
pub open spec fn digits_end(s: Seq<char>) -> Seq<char>
    decreases s.len(),
{
    if s.len() > 0 && !chars::is_digit(s.last()) {
        digits_end(s.drop_last())
    } else {
        s
    }
}

/// Whether an AV1 codec string in small letters gives a bit depth of ten or more in its
/// fourth part.
pub open spec fn deep_av1(lower: Seq<char>) -> bool {
    let parts = chars::pieces(lower, '.');
    parts.len() >= 4 && match chars::number_of(digits_end(parts[3]), u32::MAX as nat) {
        Some(depth) => depth >= 10,
        None => false,
    }
}

/// The HDR format that a codec string in small letters stands for.
pub open spec fn hdr_of(lower: Seq<char>) -> Option<HdrFormat> {
    if chars::starts(lower, "dvhe."@) || chars::starts(lower, "dvav."@) {
        Some(HdrFormat::DolbyVision)
    } else if chars::starts(lower, "hev1.2."@) || chars::starts(lower, "hvc1.2."@) {
        Some(HdrFormat::Hdr10)
    } else if chars::starts(lower, "av01."@) && deep_av1(lower) {
        Some(HdrFormat::Hdr10)
    } else if chars::starts(lower, "vp09.02."@) || chars::starts(lower, "vp09.03."@) {
        Some(HdrFormat::Hdr10)
    } else {
        None
    }
}

/// Whether an AV1 codec string gives a bit depth of ten or more.
fn has_deep_av1(lower: &[char]) -> (yes: bool)
    ensures
        yes == deep_av1(lower@),
{
    let parts: Vec<Vec<char>> = chars::split(lower, '.');
    if parts.len() < 4 {
        return false;
    }
    let part: &[char] = parts[3].as_slice();
    assert(chars::texts_view(parts@)[3] == part@);
    let mut end: usize = part.len();
    assert(part@.subrange(0, part@.len() as int) =~= part@);
    while end > 0 && !chars::is_decimal(part[end - 1])
        invariant
            end <= part.len(),
            digits_end(part@) == digits_end(part@.subrange(0, end as int)),
        decreases end,
    {
        assert(part@.subrange(0, end as int).drop_last() =~= part@.subrange(0, end - 1));
        end = end - 1;
    }
    match chars::parse_number(&part[0..end], u32::MAX as u64) {
        Some(depth) => depth >= 10,
        None => false,
    }
}

/// Detect HDR format from a codec string in small letters.
pub fn hdr_format_of_lower(lower: &[char]) -> (format: Option<HdrFormat>)
    ensures
        format == hdr_of(lower@),
{
    if chars::starts_with(lower, "dvhe.") || chars::starts_with(lower, "dvav.") {
        return Some(HdrFormat::DolbyVision);
    }
    if chars::starts_with(lower, "hev1.2.") || chars::starts_with(lower, "hvc1.2.") {
        return Some(HdrFormat::Hdr10);
    }
    if chars::starts_with(lower, "av01.") && has_deep_av1(lower) {
        return Some(HdrFormat::Hdr10);
    }
    if chars::starts_with(lower, "vp09.02.") || chars::starts_with(lower, "vp09.03.") {
        return Some(HdrFormat::Hdr10);
    }
    None
}

/// Detect HDR format from a codec string.
pub fn detect_hdr_format(codec_string: &str) -> (format: Option<HdrFormat>)
    ensures
        format == hdr_of(text::lowercase(codec_string@)),
        vstd::string::is_ascii(codec_string) ==> format == hdr_of(
            text::ascii_lower(codec_string@),
        ),
{
    let lower: String = text::to_lower(codec_string);
    hdr_format_of_lower(chars::chars_of(lower.as_str()).as_slice())
}

/// Check if a codec string indicates HDR content.
pub fn is_hdr_codec(codec_string: &str) -> (yes: bool)
    ensures
        yes == (hdr_of(text::lowercase(codec_string@)) is Some),
        vstd::string::is_ascii(codec_string) ==> yes == (hdr_of(
            text::ascii_lower(codec_string@),
        ) is Some),
{
    detect_hdr_format(codec_string).is_some()
}

/// What stands against encrypting a codec with a scheme. `lower` is the codec string in
/// small letters.
pub open spec fn scheme_check(
    codec_string: Seq<char>,
    lower: Seq<char>,
    target: EncryptionScheme,
) -> ValidationView {
    let none = ValidationView::passed();
    if (lower == "wvtt"@ || lower == "stpp"@) && target.encrypts() {
        none.fail(
            "text track codec '"@ + codec_string
                + "' cannot be encrypted (subtitles bypass encryption)"@,
        )
    } else if chars::starts(lower, "vp09."@) && target is Cbcs {
        none.fail("VP9 does not support CBCS pattern encryption"@)
    } else {
        let av1 = if chars::starts(lower, "av01."@) && target is Cbcs {
            none.warn("AV1 with CBCS has limited device support"@)
        } else {
            none
        };
        let hevc = if (chars::starts(lower, "hev1."@) || chars::starts(lower, "hvc1."@))
            && target is Cenc {
            av1.warn("HEVC with CENC requires subsample encryption for NAL unit compliance"@)
        } else {
            av1
        };
        let dolby = if (chars::starts(lower, "dvhe."@) || chars::starts(lower, "dvav."@))
            && target.encrypts() {
            hevc.warn(
                "Dolby Vision RPU NALs must survive encryption transform \u{2014} verify output playback"@,
            )
        } else {
            hevc
        };
        match hdr_of(lower) {
            Some(format) if target.encrypts() && format != HdrFormat::DolbyVision => dolby.warn(
                "HDR metadata (SEI NALs) must survive encryption transform \u{2014} verify output playback"@,
            ),
            _ => dolby,
        }
    }
}

/// Validate codec+scheme compatibility for a codec string that is also given in small
/// letters.
pub fn validate_lower_scheme(codec_string: &str, lower: &[char], target_scheme: EncryptionScheme) -> (r:
    ValidationResult)
    ensures
        r@ == scheme_check(codec_string@, lower@, target_scheme),
{
    let mut result: ValidationResult = ValidationResult::ok();
    let encrypts: bool = target_scheme.is_encrypted();
    let to_cbcs: bool = match target_scheme {
        EncryptionScheme::Cbcs => true,
        _ => false,
    };
    let to_cenc: bool = match target_scheme {
        EncryptionScheme::Cenc => true,
        _ => false,
    };
    if (chars::equals(lower, "wvtt") || chars::equals(lower, "stpp")) && encrypts {
        let mut message: String = "text track codec '".to_owned();
        message.push_str(codec_string);
        message.push_str("' cannot be encrypted (subtitles bypass encryption)");
        return result.with_error(message.as_str());
    }
    if chars::starts_with(lower, "vp09.") && to_cbcs {
        return result.with_error("VP9 does not support CBCS pattern encryption");
    }
    if chars::starts_with(lower, "av01.") && to_cbcs {
        result = result.with_warning("AV1 with CBCS has limited device support");
    }
    if (chars::starts_with(lower, "hev1.") || chars::starts_with(lower, "hvc1.")) && to_cenc {
        result =
        result.with_warning("HEVC with CENC requires subsample encryption for NAL unit compliance");
    }
    if (chars::starts_with(lower, "dvhe.") || chars::starts_with(lower, "dvav.")) && encrypts {
        result =
        result.with_warning(
            "Dolby Vision RPU NALs must survive encryption transform \u{2014} verify output playback",
        );
    }
    if let Some(format) = hdr_format_of_lower(lower) {
        if encrypts && format != HdrFormat::DolbyVision {
            result =
            result.with_warning(
                "HDR metadata (SEI NALs) must survive encryption transform \u{2014} verify output playback",
            );
        }
    }
    result
}

/// Validate codec+scheme compatibility for a single track.
pub fn validate_codec_scheme(
    codec_string: &str,
    _source_scheme: EncryptionScheme,
    target_scheme: EncryptionScheme,
) -> (r: ValidationResult)
    ensures
        r@ == scheme_check(codec_string@, text::lowercase(codec_string@), target_scheme),
        vstd::string::is_ascii(codec_string) ==> r@ == scheme_check(
            codec_string@,
            text::ascii_lower(codec_string@),
            target_scheme,
        ),
{
    let lower: String = text::to_lower(codec_string);
    validate_lower_scheme(
        codec_string,
        chars::chars_of(lower.as_str()).as_slice(),
        target_scheme,
    )
}

/// Whether one of the formats from `i` on is DASH.
pub open spec fn has_dash(formats: Seq<OutputFormat>, i: int) -> bool {
    exists|k: int| i <= k < formats.len() && #[trigger] formats[k] == OutputFormat::Dash
}

/// Validate container format against output formats.
///
/// TS container format is only supported with HLS; DASH does not support TS segments.
#[verifier::loop_isolation(false)]
pub fn validate_container_output_formats(
    container_format: ContainerFormat,
    output_formats: &[OutputFormat],
) -> (r: ValidationResult)
    ensures
        r@ == if container_format is Ts && has_dash(output_formats@, 0) {
            ValidationView::passed().fail("TS container format is not supported with DASH output"@)
        } else {
            ValidationView::passed()
        },
{
    let result: ValidationResult = ValidationResult::ok();
    match container_format {
        ContainerFormat::Ts => {},
        _ => return result,
    }
    let mut i: usize = 0;
    while i < output_formats.len()
        invariant
            i <= output_formats.len(),
            forall|k: int| 0 <= k < i ==> #[trigger] output_formats@[k] != OutputFormat::Dash,
        decreases output_formats.len() - i,
    {
        if output_formats[i] == OutputFormat::Dash {
            return result.with_error("TS container format is not supported with DASH output");
        }
        i = i + 1;
    }
    result
}

/// The checks of one codec string against the first `n` schemes, after `got`.
pub open spec fn track_checks(
    got: ValidationView,
    codec_string: Seq<char>,
    schemes: Seq<EncryptionScheme>,
    n: nat,
) -> ValidationView
    decreases n,
{
    if n == 0 {
        got
    } else {
        track_checks(got, codec_string, schemes, (n - 1) as nat).merged(
            scheme_check(codec_string, text::lowercase(codec_string), schemes[n - 1]),
        )
    }
}

/// The checks of the first `n` tracks against all schemes.
pub open spec fn request_checks(tracks: Seq<TrackView>, schemes: Seq<EncryptionScheme>, n: nat) -> ValidationView
    decreases n,
{
    if n == 0 {
        ValidationView::passed()
    } else {
        track_checks(
            request_checks(tracks, schemes, (n - 1) as nat),
            tracks[n - 1].codec_string,
            schemes,
            schemes.len(),
        )
    }
}

/// Validate a complete repackage request before processing.
pub fn validate_repackage_request(
    source_scheme: EncryptionScheme,
    target_schemes: &[EncryptionScheme],
    _container_format: ContainerFormat,
    tracks: &[TrackInfo],
) -> (r: ValidationResult)
    ensures
        r@ == if target_schemes@.len() == 0 {
            ValidationView::passed().fail("at least one target scheme is required"@)
        } else {
            request_checks(codec::tracks_view(tracks@), target_schemes@, tracks@.len())
        },
{
    let mut result: ValidationResult = ValidationResult::ok();
    if target_schemes.len() == 0 {
        return result.with_error("at least one target scheme is required");
    }
    let ghost views = codec::tracks_view(tracks@);
    let mut i: usize = 0;
    while i < tracks.len()
        invariant
            i <= tracks.len(),
            views == codec::tracks_view(tracks@),
            result@ == request_checks(views, target_schemes@, i as nat),
        decreases tracks.len() - i,
    {
        assert(views[i as int] == tracks@[i as int]@);
        let ghost before = result@;
        let mut k: usize = 0;
        while k < target_schemes.len()
            invariant
                i < tracks.len(),
                k <= target_schemes.len(),
                result@ == track_checks(
                    before,
                    tracks@[i as int].codec_string@,
                    target_schemes@,
                    k as nat,
                ),
            decreases target_schemes.len() - k,
        {
            result.merge(
                validate_codec_scheme(
                    tracks[i].codec_string.as_str(),
                    source_scheme,
                    target_schemes[k],
                ),
            );
            k = k + 1;
        }
        i = i + 1;
    }
    result
}

/// Whether a box ends within the data.
pub open spec fn box_fits(s: Seq<u8>, h: BoxHeader) -> bool {
    h.offset + h.size <= s.len()
}

/// Whether a box ends within the data.
fn fits(data: &[u8], h: &BoxHeader) -> (yes: bool)
    ensures
        yes == box_fits(data@, *h),
{
    h.offset as u128 + h.size as u128 <= data.len() as u128
}

/// The message for a box that cannot be read.
pub open spec fn parse_message(e: ErrorView) -> Seq<char> {
    "failed to parse box: "@ + e.text()
}

/// The checks of an init segment from box `i` on, after `got`; whether an ftyp and a moov
/// box were met.
pub open spec fn init_checks(s: Seq<u8>, i: int, got: ValidationView, ftyp: bool, moov: bool) -> ValidationView
    decreases cmaf::run(s).headers.len() - i,
{
    let r = cmaf::run(s);
    if i < 0 || i >= r.headers.len() {
        match r.fault {
            Some(e) => got.fail(parse_message(e)),
            None => {
                let first = if ftyp {
                    got
                } else {
                    got.fail("missing ftyp box"@)
                };
                if moov {
                    first
                } else {
                    first.fail("missing moov box"@)
                }
            },
        }
    } else {
        let h = r.headers[i];
        let is_ftyp = h.box_type@ == box_type::FTYP@;
        let is_moov = h.box_type@ == box_type::MOOV@;
        let first = if i == 0 && !is_ftyp {
            got.warn("first box is not ftyp"@)
        } else {
            got
        };
        let second = if is_moov && box_fits(s, h) && cmaf::child(
            cmaf::box_body(s, h),
            box_type::TRAK@,
        ) is None {
            first.fail("moov box contains no trak"@)
        } else {
            first
        };
        init_checks(s, i + 1, second, ftyp || is_ftyp, moov || is_moov)
    }
}

/// Validate init segment structure.
#[verifier::loop_isolation(false)]
pub fn validate_init_segment(init_data: &[u8]) -> (r: ValidationResult)
    ensures
        r@ == if init_data@.len() < 8 {
            ValidationView::passed().fail("init segment too small"@)
        } else {
            init_checks(init_data@, 0, ValidationView::passed(), false, false)
        },
{
    let mut result: ValidationResult = ValidationResult::ok();
    if init_data.len() < 8 {
        return result.with_error("init segment too small");
    }
    let (headers, fault) = cmaf::scan_boxes(init_data);
    let mut found_ftyp: bool = false;
    let mut found_moov: bool = false;
    let mut i: usize = 0;
    while i < headers.len()
        invariant
            i <= headers.len(),
            init_checks(init_data@, 0, ValidationView::passed(), false, false) == init_checks(
                init_data@,
                i as int,
                result@,
                found_ftyp,
                found_moov,
            ),
        decreases headers.len() - i,
    {
        let h: BoxHeader = headers[i];
        let is_ftyp: bool = same_code(&h.box_type, &box_type::FTYP);
        let is_moov: bool = same_code(&h.box_type, &box_type::MOOV);
        if i == 0 && !is_ftyp {
            result = result.with_warning("first box is not ftyp");
        }
        if is_moov && fits(init_data, &h) && cmaf::find_child_box(
            cmaf::box_payload(init_data, &h),
            &box_type::TRAK,
        ).is_none() {
            result = result.with_error("moov box contains no trak");
        }
        found_ftyp = found_ftyp || is_ftyp;
        found_moov = found_moov || is_moov;
        i = i + 1;
    }
    if let Some(e) = fault {
        let mut message: String = "failed to parse box: ".to_owned();
        message.push_str(e.to_string().as_str());
        return result.with_error(message.as_str());
    }
    if !found_ftyp {
        result = result.with_error("missing ftyp box");
    }
    if !found_moov {
        result = result.with_error("missing moov box");
    }
    result
}

/// The checks of a traf box, given its payload.
pub open spec fn traf_checks(s: Seq<u8>, encrypted: bool, got: ValidationView) -> ValidationView {
    let first = if cmaf::child(s, box_type::TRUN@) is None {
        got.fail("traf box contains no trun"@)
    } else {
        got
    };
    if encrypted && cmaf::child(s, box_type::SENC@) is None {
        first.warn("expected encrypted segment but no senc box found"@)
    } else {
        first
    }
}

/// The checks of a moof box, given its payload.
pub open spec fn moof_checks(s: Seq<u8>, encrypted: bool, got: ValidationView) -> ValidationView {
    match cmaf::child(s, box_type::TRAF@) {
        None => got.fail("moof box contains no traf"@),
        Some(traf) => if box_fits(s, traf) {
            traf_checks(cmaf::box_body(s, traf), encrypted, got)
        } else {
            got
        },
    }
}

/// The checks of a media segment from box `i` on, after `got`; whether a moof and an mdat
/// box were met.
pub open spec fn media_checks(
    s: Seq<u8>,
    encrypted: bool,
    i: int,
    got: ValidationView,
    moof: bool,
    mdat: bool,
) -> ValidationView
    decreases cmaf::run(s).headers.len() - i,
{
    let r = cmaf::run(s);
    if i < 0 || i >= r.headers.len() {
        match r.fault {
            Some(e) => got.fail(parse_message(e)),
            None => {
                let first = if moof {
                    got
                } else {
                    got.fail("missing moof box"@)
                };
                if mdat {
                    first
                } else {
                    first.fail("missing mdat box"@)
                }
            },
        }
    } else {
        let h = r.headers[i];
        let is_moof = h.box_type@ == box_type::MOOF@;
        let next = if is_moof && box_fits(s, h) {
            moof_checks(cmaf::box_body(s, h), encrypted, got)
        } else {
            got
        };
        media_checks(
            s,
            encrypted,
            i + 1,
            next,
            moof || is_moof,
            mdat || h.box_type@ == box_type::MDAT@,
        )
    }
}

/// The checks of a moof box, given its payload.
fn check_moof(payload: &[u8], encrypted: bool, got: ValidationResult) -> (r: ValidationResult)
    ensures
        r@ == moof_checks(payload@, encrypted, got@),
{
    let traf: BoxHeader = match cmaf::find_child_box(payload, &box_type::TRAF) {
        Some(traf) => traf,
        None => return got.with_error("moof box contains no traf"),
    };
    if !fits(payload, &traf) {
        return got;
    }
    let body: &[u8] = cmaf::box_payload(payload, &traf);
    let mut result: ValidationResult = got;
    if cmaf::find_child_box(body, &box_type::TRUN).is_none() {
        result = result.with_error("traf box contains no trun");
    }
    if encrypted && cmaf::find_child_box(body, &box_type::SENC).is_none() {
        result = result.with_warning("expected encrypted segment but no senc box found");
    }
    result
}

/// Validate media segment structure.
#[verifier::loop_isolation(false)]
pub fn validate_media_segment(segment_data: &[u8], expected_encrypted: bool) -> (r: ValidationResult)
    ensures
        r@ == if segment_data@.len() < 8 {
            ValidationView::passed().fail("media segment too small"@)
        } else {
            media_checks(
                segment_data@,
                expected_encrypted,
                0,
                ValidationView::passed(),
                false,
                false,
            )
        },
{
    let mut result: ValidationResult = ValidationResult::ok();
    if segment_data.len() < 8 {
        return result.with_error("media segment too small");
    }
    let (headers, fault) = cmaf::scan_boxes(segment_data);
    let mut found_moof: bool = false;
    let mut found_mdat: bool = false;
    let mut i: usize = 0;
    while i < headers.len()
        invariant
            i <= headers.len(),
            media_checks(
                segment_data@,
                expected_encrypted,
                0,
                ValidationView::passed(),
                false,
                false,
            ) == media_checks(
                segment_data@,
                expected_encrypted,
                i as int,
                result@,
                found_moof,
                found_mdat,
            ),
        decreases headers.len() - i,
    {
        let h: BoxHeader = headers[i];
        let is_moof: bool = same_code(&h.box_type, &box_type::MOOF);
        if is_moof && fits(segment_data, &h) {
            result = check_moof(cmaf::box_payload(segment_data, &h), expected_encrypted, result);
        }
        found_moof = found_moof || is_moof;
        found_mdat = found_mdat || same_code(&h.box_type, &box_type::MDAT);
        i = i + 1;
    }
    if let Some(e) = fault {
        let mut message: String = "failed to parse box: ".to_owned();
        message.push_str(e.to_string().as_str());
        return result.with_error(message.as_str());
    }
    if !found_moof {
        result = result.with_error("missing moof box");
    }
    if !found_mdat {
        result = result.with_error("missing mdat box");
    }
    result
}

/// A merged result is valid exactly when both were, and holds the messages of both.
pub proof fn merge_keeps_findings(a: ValidationView, b: ValidationView)
    ensures
        a.merged(b).valid == (a.valid && b.valid),
        a.merged(b).warnings.len() == a.warnings.len() + b.warnings.len(),
        a.merged(b).errors.len() == a.errors.len() + b.errors.len(),
        forall|i: int| 0 <= i < a.errors.len() ==> a.merged(b).errors[i] == a.errors[i],
        forall|i: int|
            0 <= i < b.errors.len() ==> a.merged(b).errors[a.errors.len() + i] == b.errors[i],
{
}

/// Whether a result is valid exactly when it holds no error.
pub open spec fn consistent(v: ValidationView) -> bool {
    v.valid <==> v.errors.len() == 0
}

proof fn lemma_track_checks_consistent(
    got: ValidationView,
    codec_string: Seq<char>,
    schemes: Seq<EncryptionScheme>,
    n: nat,
)
    requires
        consistent(got),
    ensures
        consistent(track_checks(got, codec_string, schemes, n)),
    decreases n,
{
    if n > 0 {
        lemma_track_checks_consistent(got, codec_string, schemes, (n - 1) as nat);
    }
}

/// A repackage request passes exactly when no error was found for any track and scheme.
pub proof fn request_valid_without_errors(
    tracks: Seq<TrackView>,
    schemes: Seq<EncryptionScheme>,
    n: nat,
)
    ensures
        consistent(request_checks(tracks, schemes, n)),
    decreases n,
{
    if n > 0 {
        request_valid_without_errors(tracks, schemes, (n - 1) as nat);
        lemma_track_checks_consistent(
            request_checks(tracks, schemes, (n - 1) as nat),
            tracks[n - 1].codec_string,
            schemes,
            schemes.len(),
        );
    }
}

} // verus!
