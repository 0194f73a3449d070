//! Init segments: rewriting, adding and removing protection.

use crate::bytes;
use crate::drm::scheme::EncryptionScheme;
use crate::drm::system_ids;
use crate::drm::{DrmKeySet, DrmSystemData, SystemView};
use crate::error::{EdgepackError, ErrorView};
use crate::media::box_type;
use crate::media::cmaf;
use crate::media::cmaf::{
    BoxHeader, ProtectionSchemeInfo, ProtectionView, PsshBox, PsshView, TencView,
    TrackEncryptionBox,
};
use crate::media::codec;
use crate::media::codec::TrackKeyMapping;
use crate::media::container::ContainerFormat;
use crate::media;
use crate::media::{same_code, FourCC, TrackType};
use vstd::prelude::*;

verus! {

/// How the samples of an output are to be encrypted.
#[derive(Clone, Copy)]
pub struct Target {
    pub scheme: EncryptionScheme,
    pub iv_size: u8,
    pub pattern: (u8, u8),
}

/// What to do with the sample entries of a track.
#[derive(Clone, Copy)]
pub enum SampleEdit {
    /// Point the existing protection at another scheme.
    Rewrite(Target),
    /// Add protection to clear entries.
    Inject(Target),
    /// Remove protection.
    Strip,
}

/// The schm box for a scheme: version and flags, scheme type, scheme version 1.0.
pub open spec fn schm_box(scheme: EncryptionScheme) -> Seq<u8> {
    cmaf::boxed(
        box_type::SCHM@,
        bytes::zeros(4) + scheme.code() + bytes::bytes32(0x10000),
    )
}

/// Build a schm box with the given encryption scheme type.
pub fn build_schm(scheme: EncryptionScheme) -> (out: Vec<u8>)
    ensures
        out@ == schm_box(scheme),
{
    let mut inner: Vec<u8> = Vec::new();
    bytes::put_zeros(&mut inner, 4);
    assert(inner@ =~= bytes::zeros(4));
    bytes::put_bytes(&mut inner, scheme.scheme_type_bytes().as_slice());
    bytes::put_u32(&mut inner, 0x10000);
    cmaf::make_box(&box_type::SCHM, inner.as_slice())
}

/// The pattern byte of a tenc box: blocks to encrypt in the upper nibble, blocks to
/// skip in the lower one.
pub open spec fn pattern_byte(pattern: (u8, u8)) -> u8 {
    ((pattern.0 % 16) * 16 + pattern.1 % 16) as u8
}

/// The tenc box for a key.
pub open spec fn tenc_box(kid: Seq<u8>, iv_size: u8, pattern: (u8, u8)) -> Seq<u8> {
    cmaf::boxed(
        box_type::TENC@,
        bytes::zeros(4) + seq![pattern_byte(pattern)] + seq![1u8] + seq![iv_size] + kid,
    )
}

/// Build a tenc box configured for the target encryption scheme.
///
/// * `kid` — 16-byte key ID
/// * `iv_size` — per-sample IV size (8 or 16)
/// * `pattern` — (crypt_byte_block, skip_byte_block); (0, 0) for CENC, (1, 9) for CBCS video
pub fn build_tenc(kid: &[u8; 16], iv_size: u8, pattern: (u8, u8)) -> (out: Vec<u8>)
    ensures
        out@ == tenc_box(kid@, iv_size, pattern),
{
    let mut inner: Vec<u8> = Vec::new();
    bytes::put_zeros(&mut inner, 4);
    assert(inner@ =~= bytes::zeros(4));
    cmaf::put_byte(&mut inner, (pattern.0 % 16) * 16 + pattern.1 % 16);
    cmaf::put_byte(&mut inner, 1);
    cmaf::put_byte(&mut inner, iv_size);
    bytes::put_bytes(&mut inner, kid.as_slice());
    cmaf::make_box(&box_type::TENC, inner.as_slice())
}

/// The sinf box for a sample entry: original format, scheme, track encryption.
pub open spec fn sinf_box(original_format: Seq<u8>, t: Target, kid: Seq<u8>) -> Seq<u8> {
    cmaf::boxed(
        box_type::SINF@,
        cmaf::boxed(box_type::FRMA@, original_format) + schm_box(t.scheme) + cmaf::boxed(
            box_type::SCHI@,
            tenc_box(kid, t.iv_size, t.pattern),
        ),
    )
}

/// Build a complete sinf box for injecting into a clear sample entry.
///
/// Structure: sinf { frma(original_format), schm(target_scheme), schi { tenc(kid, iv_size, pattern) } }
pub fn build_sinf(
    original_format: &[u8; 4],
    target_scheme: EncryptionScheme,
    kid: &[u8; 16],
    iv_size: u8,
    pattern: (u8, u8),
) -> (out: Vec<u8>)
    ensures
        out@ == sinf_box(
            original_format@,
            (Target { scheme: target_scheme, iv_size, pattern }),
            kid@,
        ),
{
    let mut children: Vec<u8> = cmaf::make_box(&box_type::FRMA, original_format.as_slice());
    bytes::put_bytes(&mut children, build_schm(target_scheme).as_slice());
    let tenc: Vec<u8> = build_tenc(kid, iv_size, pattern);
    cmaf::put_box(&mut children, &box_type::SCHI, tenc.as_slice());
    cmaf::make_box(&box_type::SINF, children.as_slice())
}

pub open spec fn code4(a: u8, b: u8, c: u8, d: u8) -> Seq<u8> {
    seq![a, b, c, d]
}

/// "encv"
pub open spec fn encv() -> Seq<u8> {
    code4(0x65, 0x6e, 0x63, 0x76)
}

/// "enca"
pub open spec fn enca() -> Seq<u8> {
    code4(0x65, 0x6e, 0x63, 0x61)
}

/// Whether a sample entry code is one of the known video codecs: avc1, avc3, hvc1,
/// hev1, vp09, av01.
pub open spec fn is_video_entry(c: Seq<u8>) -> bool {
    c == code4(0x61, 0x76, 0x63, 0x31) || c == code4(0x61, 0x76, 0x63, 0x33) || c == code4(
        0x68,
        0x76,
        0x63,
        0x31,
    ) || c == code4(0x68, 0x65, 0x76, 0x31) || c == code4(0x76, 0x70, 0x30, 0x39) || c == code4(
        0x61,
        0x76,
        0x30,
        0x31,
    )
}

/// Whether a sample entry code is one of the known audio codecs: mp4a, ac-3, ec-3,
/// Opus, fLaC.
pub open spec fn is_audio_entry(c: Seq<u8>) -> bool {
    c == code4(0x6d, 0x70, 0x34, 0x61) || c == code4(0x61, 0x63, 0x2d, 0x33) || c == code4(
        0x65,
        0x63,
        0x2d,
        0x33,
    ) || c == code4(0x4f, 0x70, 0x75, 0x73) || c == code4(0x66, 0x4c, 0x61, 0x43)
}

/// The encrypted sample entry code for a clear one.
pub open spec fn encrypted_code(c: Seq<u8>) -> Option<Seq<u8>> {
    if is_video_entry(c) {
        Some(encv())
    } else if is_audio_entry(c) {
        Some(enca())
    } else {
        None
    }
}

/// Whether a sample entry code is encv, enca, enct or encs.
pub open spec fn is_encrypted_code(c: Seq<u8>) -> bool {
    c == encv() || c == enca() || c == code4(0x65, 0x6e, 0x63, 0x74) || c == code4(
        0x65,
        0x6e,
        0x63,
        0x73,
    )
}

/// Whether a code consists of the four given bytes.
fn is_code(c: &[u8; 4], a: u8, b: u8, d: u8, e: u8) -> (same: bool)
    ensures
        same == (c@ == code4(a, b, d, e)),
{
    let same: bool = c[0] == a && c[1] == b && c[2] == d && c[3] == e;
    if same {
        assert(c@ =~= code4(a, b, d, e));
    }
    same
}

/// Map a clear sample entry FourCC to its encrypted equivalent.
///
/// Returns None if the FourCC is already encrypted or unrecognized.
pub fn encrypted_sample_entry_type(fourcc: &[u8; 4]) -> (code: Option<[u8; 4]>)
    ensures
        match (code, encrypted_code(fourcc@)) {
            (Some(c), Some(want)) => c@ == want,
            (None, None) => true,
            _ => false,
        },
{
    if is_code(fourcc, 0x61, 0x76, 0x63, 0x31) || is_code(fourcc, 0x61, 0x76, 0x63, 0x33)
        || is_code(fourcc, 0x68, 0x76, 0x63, 0x31) || is_code(fourcc, 0x68, 0x65, 0x76, 0x31)
        || is_code(fourcc, 0x76, 0x70, 0x30, 0x39) || is_code(fourcc, 0x61, 0x76, 0x30, 0x31) {
        let c: [u8; 4] = [0x65, 0x6e, 0x63, 0x76];
        assert(c@ =~= encv());
        Some(c)
    } else if is_code(fourcc, 0x6d, 0x70, 0x34, 0x61) || is_code(fourcc, 0x61, 0x63, 0x2d, 0x33)
        || is_code(fourcc, 0x65, 0x63, 0x2d, 0x33) || is_code(fourcc, 0x4f, 0x70, 0x75, 0x73)
        || is_code(fourcc, 0x66, 0x4c, 0x61, 0x43) {
        let c: [u8; 4] = [0x65, 0x6e, 0x63, 0x61];
        assert(c@ =~= enca());
        Some(c)
    } else {
        None
    }
}

/// Whether a sample entry FourCC marks an encrypted entry.
pub fn is_encrypted_sample_entry(fourcc: &[u8; 4]) -> (yes: bool)
    ensures
        yes == is_encrypted_code(fourcc@),
{
    is_code(fourcc, 0x65, 0x6e, 0x63, 0x76) || is_code(fourcc, 0x65, 0x6e, 0x63, 0x61) || is_code(
        fourcc,
        0x65,
        0x6e,
        0x63,
        0x74,
    ) || is_code(fourcc, 0x65, 0x6e, 0x63, 0x73)
}

/// The children of a schi box from position `i` on, after those in `got`: every tenc
/// box replaced, the rest copied.
pub open spec fn schi_children(
    s: Seq<u8>,
    i: int,
    kid: Seq<u8>,
    t: Target,
    got: Seq<u8>,
) -> Result<Seq<u8>, ErrorView>
    decreases cmaf::run(s).headers.len() - i,
{
    let r = cmaf::run(s);
    if i < 0 || i >= r.headers.len() {
        match r.fault {
            Some(e) => Err(e),
            None => Ok(got),
        }
    } else {
        let part = if r.headers[i].box_type@ == box_type::TENC@ {
            tenc_box(kid, t.iv_size, t.pattern)
        } else {
            cmaf::box_bytes(s, r.headers[i])
        };
        schi_children(s, i + 1, kid, t, got + part)
    }
}

/// A schi box with its tenc boxes replaced.
pub open spec fn schi_rewritten(s: Seq<u8>, kid: Seq<u8>, t: Target) -> Result<Seq<u8>, ErrorView> {
    match schi_children(s, 0, kid, t, Seq::empty()) {
        Ok(c) => Ok(cmaf::boxed(box_type::SCHI@, c)),
        Err(e) => Err(e),
    }
}

/// Rewrite the schi box (contains tenc), given its payload.
#[verifier::loop_isolation(false)]
pub fn rewrite_schi(payload: &[u8], kid: &[u8; 16], target: Target) -> (r: Result<
    Vec<u8>,
    EdgepackError,
>)
    ensures
        cmaf::outcome_view(r) == schi_rewritten(payload@, kid@, target),
{
    let (headers, fault) = cmaf::scan_boxes(payload);
    let mut children: Vec<u8> = Vec::new();
    let mut i: usize = 0;
    while i < headers.len()
        invariant
            i <= headers.len(),
            schi_children(payload@, 0, kid@, target, Seq::empty()) == schi_children(
                payload@,
                i as int,
                kid@,
                target,
                children@,
            ),
        decreases headers.len() - i,
    {
        let h: BoxHeader = headers[i];
        if same_code(&h.box_type, &box_type::TENC) {
            bytes::put_bytes(
                &mut children,
                build_tenc(kid, target.iv_size, target.pattern).as_slice(),
            );
        } else {
            bytes::put_bytes(&mut children, cmaf::whole_box(payload, &h));
        }
        i = i + 1;
    }
    match fault {
        Some(e) => Err(e),
        None => Ok(cmaf::make_box(&box_type::SCHI, children.as_slice())),
    }
}

/// The children of a sinf box from position `i` on, after those in `got`: scheme and
/// track encryption replaced, the original format and the rest copied.
pub open spec fn sinf_children(
    s: Seq<u8>,
    i: int,
    kid: Seq<u8>,
    t: Target,
    got: Seq<u8>,
) -> Result<Seq<u8>, ErrorView>
    decreases cmaf::run(s).headers.len() - i,
{
    let r = cmaf::run(s);
    if i < 0 || i >= r.headers.len() {
        match r.fault {
            Some(e) => Err(e),
            None => Ok(got),
        }
    } else {
        let h = r.headers[i];
        let part = if h.box_type@ == box_type::SCHM@ {
            Ok(schm_box(t.scheme))
        } else if h.box_type@ == box_type::SCHI@ {
            schi_rewritten(cmaf::box_body(s, h), kid, t)
        } else {
            Ok(cmaf::box_bytes(s, h))
        };
        match part {
            Ok(b) => sinf_children(s, i + 1, kid, t, got + b),
            Err(e) => Err(e),
        }
    }
}

/// A sinf box pointed at another scheme.
pub open spec fn sinf_rewritten(s: Seq<u8>, kid: Seq<u8>, t: Target) -> Result<Seq<u8>, ErrorView> {
    match sinf_children(s, 0, kid, t, Seq::empty()) {
        Ok(c) => Ok(cmaf::boxed(box_type::SINF@, c)),
        Err(e) => Err(e),
    }
}

/// Rewrite a sinf box to the target encryption scheme, given its payload.
#[verifier::loop_isolation(false)]
pub fn rewrite_sinf(payload: &[u8], kid: &[u8; 16], target: Target) -> (r: Result<
    Vec<u8>,
    EdgepackError,
>)
    ensures
        cmaf::outcome_view(r) == sinf_rewritten(payload@, kid@, target),
{
    let (headers, fault) = cmaf::scan_boxes(payload);
    let mut children: Vec<u8> = Vec::new();
    let mut i: usize = 0;
    while i < headers.len()
        invariant
            i <= headers.len(),
            sinf_children(payload@, 0, kid@, target, Seq::empty()) == sinf_children(
                payload@,
                i as int,
                kid@,
                target,
                children@,
            ),
        decreases headers.len() - i,
    {
        let h: BoxHeader = headers[i];
        if same_code(&h.box_type, &box_type::SCHM) {
            bytes::put_bytes(&mut children, build_schm(target.scheme).as_slice());
        } else if same_code(&h.box_type, &box_type::SCHI) {
            match rewrite_schi(cmaf::box_payload(payload, &h), kid, target) {
                Ok(schi) => bytes::put_bytes(&mut children, schi.as_slice()),
                Err(e) => {
                    return Err(e);
                },
            }
        } else {
            bytes::put_bytes(&mut children, cmaf::whole_box(payload, &h));
        }
        i = i + 1;
    }
    match fault {
        Some(e) => Err(e),
        None => Ok(cmaf::make_box(&box_type::SINF, children.as_slice())),
    }
}

/// Whether a sinf box of at least `least` bytes that fits into `p` starts at `pos`.
pub open spec fn sinf_starts(p: Seq<u8>, pos: int, least: int) -> bool {
    &&& pos + 8 <= p.len()
    &&& p.subrange(pos + 4, pos + 8) == box_type::SINF@
    &&& bytes::be32(p, pos) >= least
    &&& pos + bytes::be32(p, pos) <= p.len()
}

/// The payload of a sample entry from `pos` on, after `got`, with every sinf box in it
/// pointed at another scheme and all other bytes copied.
pub open spec fn entry_rewritten(
    p: Seq<u8>,
    pos: int,
    kid: Seq<u8>,
    t: Target,
    got: Seq<u8>,
) -> Result<Seq<u8>, ErrorView>
    decreases p.len() - pos,
{
    if pos < 0 || pos + 8 > p.len() {
        Ok(got + bytes::clamped(p, pos, p.len() as int))
    } else if sinf_starts(p, pos, 1) {
        let size = bytes::be32(p, pos);
        let sinf = p.subrange(pos, pos + size);
        match cmaf::header_at(sinf, 0) {
            Err(e) => Err(e),
            Ok(h) => match sinf_rewritten(
                bytes::clamped(sinf, h.header_size as int, size as int),
                kid,
                t,
            ) {
                Err(e) => Err(e),
                Ok(b) => entry_rewritten(p, pos + size, kid, t, got + b),
            },
        }
    } else {
        entry_rewritten(p, pos + 1, kid, t, got.push(p[pos]))
    }
}

/// Whether a sinf box of at least `least` bytes starts at `pos`.
fn at_sinf(payload: &[u8], pos: usize, least: u32) -> (yes: bool)
    requires
        pos + 8 <= payload.len(),
    ensures
        yes == sinf_starts(payload@, pos as int, least as int),
{
    let code: FourCC = bytes::read_4(payload, pos + 4);
    let size: u32 = bytes::read_u32(payload, pos);
    same_code(&code, &box_type::SINF) && size >= least && size as u64 <= (payload.len() - pos) as u64
}

/// Rewrite the payload of a sample entry (e.g., encv, enca), modifying the sinf child.
///
/// The fixed fields of a sample entry depend on the codec, so the payload is searched
/// for a sinf box and everything else is copied as it is.
#[verifier::loop_isolation(false)]
pub fn rewrite_sample_entry(payload: &[u8], kid: &[u8; 16], target: Target) -> (r: Result<
    Vec<u8>,
    EdgepackError,
>)
    ensures
        cmaf::outcome_view(r) == entry_rewritten(payload@, 0, kid@, target, Seq::empty()),
{
    let mut out: Vec<u8> = Vec::new();
    let mut pos: usize = 0;
    while payload.len() >= 8 && pos <= payload.len() - 8
        invariant
            pos <= payload.len(),
            entry_rewritten(payload@, 0, kid@, target, Seq::empty()) == entry_rewritten(
                payload@,
                pos as int,
                kid@,
                target,
                out@,
            ),
        decreases payload.len() - pos,
    {
        if at_sinf(payload, pos, 1) {
            let size: usize = bytes::read_u32(payload, pos) as usize;
            let sinf: &[u8] = &payload[pos..pos + size];
            match cmaf::read_box_header(sinf, 0) {
                Err(e) => {
                    return Err(e);
                },
                Ok(h) => {
                    let body: &[u8] = bytes::slice_clamped(sinf, h.header_size as usize, size);
                    match rewrite_sinf(body, kid, target) {
                        Ok(b) => bytes::put_bytes(&mut out, b.as_slice()),
                        Err(e) => {
                            return Err(e);
                        },
                    }
                },
            }
            pos = pos + size;
        } else {
            out.push(payload[pos]);
            pos = pos + 1;
        }
    }
    bytes::put_bytes(&mut out, bytes::slice_clamped(payload, pos, payload.len()));
    Ok(out)
}

/// The original format in the first frma box at or after position `i` that holds one.
pub open spec fn frma_in(s: Seq<u8>, i: int) -> Option<Seq<u8>>
    decreases cmaf::run(s).headers.len() - i,
{
    let headers = cmaf::run(s).headers;
    if i < 0 || i >= headers.len() {
        None
    } else if headers[i].box_type@ == box_type::FRMA@ && cmaf::box_body(s, headers[i]).len() >= 4 {
        Some(cmaf::box_body(s, headers[i]).subrange(0, 4))
    } else {
        frma_in(s, i + 1)
    }
}

/// A FourCC as an optional byte sequence.
pub open spec fn opt_code(c: Option<[u8; 4]>) -> Option<Seq<u8>> {
    match c {
        Some(x) => Some(x@),
        None => None,
    }
}

/// Find frma box inside sinf payload and return the original format FourCC.
pub fn find_frma_in_sinf(sinf_payload: &[u8]) -> (format: Option<[u8; 4]>)
    ensures
        opt_code(format) == frma_in(sinf_payload@, 0),
{
    let (headers, _fault) = cmaf::scan_boxes(sinf_payload);
    let mut i: usize = 0;
    while i < headers.len()
        invariant
            i <= headers.len(),
            headers@ == cmaf::run(sinf_payload@).headers,
            frma_in(sinf_payload@, 0) == frma_in(sinf_payload@, i as int),
        decreases headers.len() - i,
    {
        let h: BoxHeader = headers[i];
        if same_code(&h.box_type, &box_type::FRMA) {
            let body: &[u8] = cmaf::box_payload(sinf_payload, &h);
            if body.len() >= 4 {
                return Some(bytes::read_4(body, 0));
            }
        }
        i = i + 1;
    }
    None
}

/// The payload of a sample entry from `pos` on, after `got`, without its sinf boxes,
/// and the original format that the last of them names.
pub open spec fn entry_stripped(
    p: Seq<u8>,
    pos: int,
    format: Option<Seq<u8>>,
    got: Seq<u8>,
) -> (Option<Seq<u8>>, Seq<u8>)
    decreases p.len() - pos,
{
    if pos < 0 || pos + 8 > p.len() {
        (format, got + bytes::clamped(p, pos, p.len() as int))
    } else if sinf_starts(p, pos, 8) {
        let size = bytes::be32(p, pos);
        let found = frma_in(p.subrange(pos + 8, pos + size), 0);
        entry_stripped(p, pos + size, if found is Some { found } else { format }, got)
    } else {
        entry_stripped(p, pos + 1, format, got.push(p[pos]))
    }
}

/// Extract the original format from sinf/frma and return payload with sinf removed.
pub fn extract_frma_and_strip_sinf(entry_payload: &[u8]) -> (r: (Option<[u8; 4]>, Vec<u8>))
    ensures
        (opt_code(r.0), r.1@) == entry_stripped(entry_payload@, 0, None, Seq::empty()),
{
    let mut format: Option<[u8; 4]> = None;
    let mut out: Vec<u8> = Vec::new();
    let mut pos: usize = 0;
    while entry_payload.len() >= 8 && pos <= entry_payload.len() - 8
        invariant
            pos <= entry_payload.len(),
            entry_stripped(entry_payload@, 0, None, Seq::empty()) == entry_stripped(
                entry_payload@,
                pos as int,
                opt_code(format),
                out@,
            ),
        decreases entry_payload.len() - pos,
    {
        if at_sinf(entry_payload, pos, 8) {
            let size: usize = bytes::read_u32(entry_payload, pos) as usize;
            match find_frma_in_sinf(&entry_payload[pos + 8..pos + size]) {
                Some(f) => {
                    format = Some(f);
                },
                None => {},
            }
            pos = pos + size;
        } else {
            out.push(entry_payload[pos]);
            pos = pos + 1;
        }
    }
    bytes::put_bytes(&mut out, bytes::slice_clamped(entry_payload, pos, entry_payload.len()));
    (format, out)
}

/// The sample entry `h` of the stsd payload `p` after the edit. An entry that is written anew has
/// an eight-byte header, whatever it had before, and its size is that of the box with that header.
pub open spec fn edited_entry(p: Seq<u8>, h: BoxHeader, edit: SampleEdit, kid: Seq<u8>) -> Result<
    Seq<u8>,
    ErrorView,
> {
    let body = cmaf::box_body(p, h);
    match edit {
        SampleEdit::Rewrite(t) => match entry_rewritten(body, 0, kid, t, Seq::empty()) {
            Ok(b) => Ok(cmaf::boxed(h.box_type@, b)),
            Err(e) => Err(e),
        },
        SampleEdit::Inject(t) => match encrypted_code(h.box_type@) {
            Some(code) => Ok(cmaf::boxed(code, body + sinf_box(h.box_type@, t, kid))),
            None => Ok(cmaf::box_bytes(p, h)),
        },
        SampleEdit::Strip => if is_encrypted_code(h.box_type@) {
            let (format, b) = entry_stripped(body, 0, None, Seq::empty());
            Ok(
                cmaf::boxed(
                    match format {
                        Some(f) => f,
                        None => h.box_type@,
                    },
                    b,
                ),
            )
        } else {
            Ok(cmaf::box_bytes(p, h))
        },
    }
}

/// Edits one sample entry of a stsd payload.
pub fn edit_entry(payload: &[u8], h: &BoxHeader, edit: SampleEdit, kid: &[u8; 16]) -> (r: Result<
    Vec<u8>,
    EdgepackError,
>)
    ensures
        cmaf::outcome_view(r) == edited_entry(payload@, *h, edit, kid@),
{
    let body: &[u8] = cmaf::box_payload(payload, h);
    match edit {
        SampleEdit::Rewrite(t) => match rewrite_sample_entry(body, kid, t) {
            Ok(b) => Ok(cmaf::make_box(&h.box_type, b.as_slice())),
            Err(e) => Err(e),
        },
        SampleEdit::Inject(t) => match encrypted_sample_entry_type(&h.box_type) {
            Some(code) => {
                let mut inner: Vec<u8> = bytes::to_vec(body);
                let sinf: Vec<u8> = build_sinf(&h.box_type, t.scheme, kid, t.iv_size, t.pattern);
                bytes::put_bytes(&mut inner, sinf.as_slice());
                Ok(cmaf::make_box(&code, inner.as_slice()))
            },
            None => Ok(bytes::to_vec(cmaf::whole_box(payload, h))),
        },
        SampleEdit::Strip => if is_encrypted_sample_entry(&h.box_type) {
            let (format, b) = extract_frma_and_strip_sinf(body);
            let code: FourCC = match format {
                Some(f) => f,
                None => h.box_type,
            };
            Ok(cmaf::make_box(&code, b.as_slice()))
        } else {
            Ok(bytes::to_vec(cmaf::whole_box(payload, h)))
        },
    }
}

/// Up to `n` sample entries of the stsd payload `p` from `off` on, edited, after `got`.
pub open spec fn stsd_entries(
    p: Seq<u8>,
    off: int,
    n: nat,
    edit: SampleEdit,
    kid: Seq<u8>,
    got: Seq<u8>,
) -> Result<Seq<u8>, ErrorView>
    decreases n,
{
    if n == 0 || off + 8 > p.len() {
        Ok(got)
    } else {
        match cmaf::header_at(p, off) {
            Err(e) => Err(e),
            Ok(h) => match edited_entry(p, h, edit, kid) {
                Err(e) => Err(e),
                Ok(b) => stsd_entries(p, off + h.size, (n - 1) as nat, edit, kid, got + b),
            },
        }
    }
}

/// The stsd box `h` of `s` with its sample entries edited. A box that is too small for
/// an entry count is copied.
pub open spec fn edited_stsd(s: Seq<u8>, h: BoxHeader, edit: SampleEdit, kid: Seq<u8>) -> Result<
    Seq<u8>,
    ErrorView,
> {
    let p = cmaf::box_body(s, h);
    if p.len() < 8 {
        Ok(cmaf::box_bytes(s, h))
    } else {
        match stsd_entries(p, 8, bytes::be32(p, 4) as nat, edit, kid, Seq::empty()) {
            Err(e) => Err(e),
            Ok(entries) => Ok(
                cmaf::boxed(
                    box_type::STSD@,
                    p.subrange(0, 4) + bytes::bytes32(bytes::be32(p, 4)) + entries,
                ),
            ),
        }
    }
}

/// Edits the sample entries of the stsd box `h` in `data`.
#[verifier::loop_isolation(false)]
pub fn edit_stsd(data: &[u8], h: &BoxHeader, edit: SampleEdit, kid: &[u8; 16]) -> (r: Result<
    Vec<u8>,
    EdgepackError,
>)
    ensures
        cmaf::outcome_view(r) == edited_stsd(data@, *h, edit, kid@),
{
    let payload: &[u8] = cmaf::box_payload(data, h);
    if payload.len() < 8 {
        return Ok(bytes::to_vec(cmaf::whole_box(data, h)));
    }
    let count: u32 = bytes::read_u32(payload, 4);
    let mut entries: Vec<u8> = Vec::new();
    let mut offset: u64 = 8;
    let mut i: u32 = 0;
    while i < count && offset <= (payload.len() - 8) as u64
        invariant
            i <= count,
            stsd_entries(payload@, 8, count as nat, edit, kid@, Seq::empty()) == stsd_entries(
                payload@,
                offset as int,
                (count - i) as nat,
                edit,
                kid@,
                entries@,
            ),
        decreases count - i,
    {
        match cmaf::read_box_header(payload, offset) {
            Err(e) => {
                return Err(e);
            },
            Ok(entry) => {
                match edit_entry(payload, &entry, edit, kid) {
                    Ok(b) => bytes::put_bytes(&mut entries, b.as_slice()),
                    Err(e) => {
                        return Err(e);
                    },
                }
                if entry.size <= u64::MAX - offset {
                    offset = offset + entry.size;
                } else {
                    assert(stsd_entries(
                        payload@,
                        offset + entry.size,
                        (count - i - 1) as nat,
                        edit,
                        kid@,
                        entries@,
                    ) == Ok::<Seq<u8>, ErrorView>(entries@));
                    offset = u64::MAX;
                }
            },
        }
        i = i + 1;
    }
    let mut inner: Vec<u8> = bytes::to_vec(&payload[0..4]);
    bytes::put_u32(&mut inner, count);
    bytes::put_bytes(&mut inner, entries.as_slice());
    Ok(cmaf::make_box(&box_type::STSD, inner.as_slice()))
}

/// Whether the edit goes on inside a box of this type.
pub open spec fn descends(edit: SampleEdit, code: Seq<u8>) -> bool {
    code == box_type::MINF@ || code == box_type::STBL@ || (!(edit is Rewrite) && code
        == box_type::MDIA@)
}

/// The children of a container from position `i` on, after those in `got`, with the
/// sample entries below them edited.
pub open spec fn edited_children(
    s: Seq<u8>,
    i: int,
    edit: SampleEdit,
    kid: Seq<u8>,
    got: Seq<u8>,
) -> Result<Seq<u8>, ErrorView>
    decreases s.len(), cmaf::run(s).headers.len() - i,
{
    let r = cmaf::run(s);
    if i < 0 || i >= r.headers.len() {
        match r.fault {
            Some(e) => Err(e),
            None => Ok(got),
        }
    } else {
        let h = r.headers[i];
        proof {
            cmaf::lemma_run_bounds(s, 0);
            assert(cmaf::run_from(s, 0).headers[i] == h);
        }
        let part = if descends(edit, h.box_type@) {
            match edited_children(cmaf::box_body(s, h), 0, edit, kid, Seq::empty()) {
                Ok(c) => Ok(cmaf::boxed(h.box_type@, c)),
                Err(e) => Err(e),
            }
        } else if h.box_type@ == box_type::STSD@ {
            edited_stsd(s, h, edit, kid)
        } else {
            Ok(cmaf::box_bytes(s, h))
        };
        match part {
            Ok(b) => edited_children(s, i + 1, edit, kid, got + b),
            Err(e) => Err(e),
        }
    }
}

/// A container box with the sample entries below it edited.
pub open spec fn edited_container(s: Seq<u8>, code: Seq<u8>, edit: SampleEdit, kid: Seq<u8>) -> Result<
    Seq<u8>,
    ErrorView,
> {
    match edited_children(s, 0, edit, kid, Seq::empty()) {
        Ok(c) => Ok(cmaf::boxed(code, c)),
        Err(e) => Err(e),
    }
}

/// Whether the edit goes on inside a box of this type.
fn goes_into(edit: SampleEdit, code: &FourCC) -> (yes: bool)
    ensures
        yes == descends(edit, code@),
{
    let rewriting: bool = match edit {
        SampleEdit::Rewrite(_) => true,
        _ => false,
    };
    same_code(code, &box_type::MINF) || same_code(code, &box_type::STBL) || (!rewriting
        && same_code(code, &box_type::MDIA))
}

/// Generic container box editing: recurses into the children, given the payload.
#[verifier::loop_isolation(false)]
pub fn edit_container(payload: &[u8], code: &FourCC, edit: SampleEdit, kid: &[u8; 16]) -> (r: Result<
    Vec<u8>,
    EdgepackError,
>)
    ensures
        cmaf::outcome_view(r) == edited_container(payload@, code@, edit, kid@),
    decreases payload@.len(),
{
    let (headers, fault) = cmaf::scan_boxes(payload);
    proof {
        cmaf::lemma_run_bounds(payload@, 0);
    }
    let mut children: Vec<u8> = Vec::new();
    let mut i: usize = 0;
    while i < headers.len()
        invariant
            i <= headers.len(),
            edited_children(payload@, 0, edit, kid@, Seq::empty()) == edited_children(
                payload@,
                i as int,
                edit,
                kid@,
                children@,
            ),
        decreases headers.len() - i,
    {
        let h: BoxHeader = headers[i];
        assert(cmaf::run_from(payload@, 0).headers[i as int] == h);
        if goes_into(edit, &h.box_type) {
            match edit_container(cmaf::box_payload(payload, &h), &h.box_type, edit, kid) {
                Ok(b) => bytes::put_bytes(&mut children, b.as_slice()),
                Err(e) => {
                    return Err(e);
                },
            }
        } else if same_code(&h.box_type, &box_type::STSD) {
            match edit_stsd(payload, &h, edit, kid) {
                Ok(b) => bytes::put_bytes(&mut children, b.as_slice()),
                Err(e) => {
                    return Err(e);
                },
            }
        } else {
            bytes::put_bytes(&mut children, cmaf::whole_box(payload, &h));
        }
        i = i + 1;
    }
    match fault {
        Some(e) => Err(e),
        None => Ok(cmaf::make_box(code, children.as_slice())),
    }
}


/// The track type that the handler box of a trak payload names.
pub open spec fn track_type_of(p: Seq<u8>) -> TrackType {
    match cmaf::child(p, box_type::MDIA@) {
        None => TrackType::Unknown,
        Some(mdia) => {
            let m = cmaf::box_body(p, mdia);
            match cmaf::child(m, box_type::HDLR@) {
                None => TrackType::Unknown,
                Some(hdlr) => {
                    let b = cmaf::box_body(m, hdlr);
                    if b.len() >= 12 {
                        media::handler_track_type(b.subrange(8, 12))
                    } else {
                        TrackType::Unknown
                    }
                },
            }
        },
    }
}

/// Detect track type by searching for hdlr box in trak → mdia.
pub fn detect_track_type(trak_payload: &[u8]) -> (kind: TrackType)
    ensures
        kind == track_type_of(trak_payload@),
{
    match cmaf::find_child_box(trak_payload, &box_type::MDIA) {
        None => TrackType::Unknown,
        Some(mdia_header) => {
            let mdia: &[u8] = cmaf::box_payload(trak_payload, &mdia_header);
            match cmaf::find_child_box(mdia, &box_type::HDLR) {
                None => TrackType::Unknown,
                Some(hdlr_header) => {
                    let hdlr: &[u8] = cmaf::box_payload(mdia, &hdlr_header);
                    if hdlr.len() >= 12 {
                        TrackType::from_handler(&bytes::read_4(hdlr, 8))
                    } else {
                        TrackType::Unknown
                    }
                },
            }
        },
    }
}

/// The key of a track: the one that the mapping has for the track's type, or zeros.
pub open spec fn track_kid(p: Seq<u8>, mapping: Seq<(TrackType, Seq<u8>)>) -> Seq<u8> {
    match codec::key_for(mapping, track_type_of(p)) {
        Some(k) => k,
        None => bytes::zeros(16),
    }
}

/// The key of the track with the given trak payload.
fn kid_of_track(payload: &[u8], mapping: &TrackKeyMapping) -> (kid: [u8; 16])
    ensures
        kid@ == track_kid(payload@, mapping@),
{
    match mapping.kid_for_track(detect_track_type(payload)) {
        Some(k) => *k,
        None => {
            let none: [u8; 16] = [0u8; 16];
            assert(none@ =~= bytes::zeros(16));
            none
        },
    }
}

/// The children of a trak box from position `i` on, after those in `got`, with the
/// protection below mdia pointed at another scheme.
pub open spec fn rewritten_trak(
    s: Seq<u8>,
    i: int,
    t: Target,
    kid: Seq<u8>,
    got: Seq<u8>,
) -> Result<Seq<u8>, ErrorView>
    decreases cmaf::run(s).headers.len() - i,
{
    let r = cmaf::run(s);
    if i < 0 || i >= r.headers.len() {
        match r.fault {
            Some(e) => Err(e),
            None => Ok(got),
        }
    } else {
        let h = r.headers[i];
        let part = if h.box_type@ == box_type::MDIA@ {
            edited_container(cmaf::box_body(s, h), box_type::MDIA@, SampleEdit::Rewrite(t), kid)
        } else {
            Ok(cmaf::box_bytes(s, h))
        };
        match part {
            Ok(b) => rewritten_trak(s, i + 1, t, kid, got + b),
            Err(e) => Err(e),
        }
    }
}

/// A trak box after the edit, given its payload.
pub open spec fn edited_trak(
    s: Seq<u8>,
    edit: SampleEdit,
    mapping: Seq<(TrackType, Seq<u8>)>,
) -> Result<Seq<u8>, ErrorView> {
    match edit {
        SampleEdit::Rewrite(t) => match rewritten_trak(
            s,
            0,
            t,
            track_kid(s, mapping),
            Seq::empty(),
        ) {
            Ok(c) => Ok(cmaf::boxed(box_type::TRAK@, c)),
            Err(e) => Err(e),
        },
        SampleEdit::Inject(_) => edited_container(
            s,
            box_type::TRAK@,
            edit,
            track_kid(s, mapping),
        ),
        SampleEdit::Strip => edited_container(s, box_type::TRAK@, edit, bytes::zeros(16)),
    }
}

/// Rewrite a trak box, recursing into stbl/sinf for encryption info.
///
/// Detects track type from the hdlr box inside mdia and selects the
/// appropriate KID from the key mapping.
#[verifier::loop_isolation(false)]
pub fn rewrite_trak(payload: &[u8], key_mapping: &TrackKeyMapping, target: Target) -> (r: Result<
    Vec<u8>,
    EdgepackError,
>)
    ensures
        cmaf::outcome_view(r) == edited_trak(
            payload@,
            SampleEdit::Rewrite(target),
            key_mapping@,
        ),
{
    let kid: [u8; 16] = kid_of_track(payload, key_mapping);
    let (headers, fault) = cmaf::scan_boxes(payload);
    let mut children: Vec<u8> = Vec::new();
    let mut i: usize = 0;
    while i < headers.len()
        invariant
            i <= headers.len(),
            rewritten_trak(payload@, 0, target, kid@, Seq::empty()) == rewritten_trak(
                payload@,
                i as int,
                target,
                kid@,
                children@,
            ),
        decreases headers.len() - i,
    {
        let h: BoxHeader = headers[i];
        if same_code(&h.box_type, &box_type::MDIA) {
            match edit_container(
                cmaf::box_payload(payload, &h),
                &box_type::MDIA,
                SampleEdit::Rewrite(target),
                &kid,
            ) {
                Ok(b) => bytes::put_bytes(&mut children, b.as_slice()),
                Err(e) => {
                    return Err(e);
                },
            }
        } else {
            bytes::put_bytes(&mut children, cmaf::whole_box(payload, &h));
        }
        i = i + 1;
    }
    match fault {
        Some(e) => Err(e),
        None => Ok(cmaf::make_box(&box_type::TRAK, children.as_slice())),
    }
}

/// Edits a trak box, given its payload.
fn edit_trak(payload: &[u8], edit: SampleEdit, key_mapping: &TrackKeyMapping) -> (r: Result<
    Vec<u8>,
    EdgepackError,
>)
    ensures
        cmaf::outcome_view(r) == edited_trak(payload@, edit, key_mapping@),
{
    match edit {
        SampleEdit::Rewrite(t) => rewrite_trak(payload, key_mapping, t),
        SampleEdit::Inject(_) => {
            let kid: [u8; 16] = kid_of_track(payload, key_mapping);
            edit_container(payload, &box_type::TRAK, edit, &kid)
        },
        SampleEdit::Strip => {
            let none: [u8; 16] = [0u8; 16];
            assert(none@ =~= bytes::zeros(16));
            edit_container(payload, &box_type::TRAK, edit, &none)
        },
    }
}

/// The children of a moov box from position `i` on, after those in `got`.
///
/// When rewriting, the new PSSH boxes take the place of the first old one, or stand at
/// the end; the other old ones go. When protection is added, the new ones stand at the
/// end. When it is removed, every PSSH box goes.
pub open spec fn moov_children(
    s: Seq<u8>,
    i: int,
    edit: SampleEdit,
    mapping: Seq<(TrackType, Seq<u8>)>,
    pssh: Seq<u8>,
    wrote: bool,
    got: Seq<u8>,
) -> Result<Seq<u8>, ErrorView>
    decreases cmaf::run(s).headers.len() - i,
{
    let r = cmaf::run(s);
    if i < 0 || i >= r.headers.len() {
        match r.fault {
            Some(e) => Err(e),
            None => Ok(
                if edit is Inject || (edit is Rewrite && !wrote) {
                    got + pssh
                } else {
                    got
                },
            ),
        }
    } else {
        let h = r.headers[i];
        if h.box_type@ == box_type::TRAK@ {
            match edited_trak(cmaf::box_body(s, h), edit, mapping) {
                Ok(b) => moov_children(s, i + 1, edit, mapping, pssh, wrote, got + b),
                Err(e) => Err(e),
            }
        } else if h.box_type@ == box_type::PSSH@ && !(edit is Inject) {
            if edit is Rewrite && !wrote {
                moov_children(s, i + 1, edit, mapping, pssh, true, got + pssh)
            } else {
                moov_children(s, i + 1, edit, mapping, pssh, wrote, got)
            }
        } else {
            moov_children(s, i + 1, edit, mapping, pssh, wrote, got + cmaf::box_bytes(s, h))
        }
    }
}

/// A moov box after the edit, given its payload.
pub open spec fn edited_moov(
    s: Seq<u8>,
    edit: SampleEdit,
    mapping: Seq<(TrackType, Seq<u8>)>,
    pssh: Seq<u8>,
) -> Result<Seq<u8>, ErrorView> {
    match moov_children(s, 0, edit, mapping, pssh, false, Seq::empty()) {
        Ok(c) => Ok(cmaf::boxed(box_type::MOOV@, c)),
        Err(e) => Err(e),
    }
}

/// Edits a moov box, given its payload, recursing into its trak children.
#[verifier::loop_isolation(false)]
pub fn edit_moov(
    payload: &[u8],
    edit: SampleEdit,
    key_mapping: &TrackKeyMapping,
    pssh: &[u8],
) -> (r: Result<Vec<u8>, EdgepackError>)
    ensures
        cmaf::outcome_view(r) == edited_moov(payload@, edit, key_mapping@, pssh@),
{
    let (headers, fault) = cmaf::scan_boxes(payload);
    let rewriting: bool = match edit {
        SampleEdit::Rewrite(_) => true,
        _ => false,
    };
    let injecting: bool = match edit {
        SampleEdit::Inject(_) => true,
        _ => false,
    };
    let mut wrote: bool = false;
    let mut children: Vec<u8> = Vec::new();
    let mut i: usize = 0;
    while i < headers.len()
        invariant
            i <= headers.len(),
            moov_children(payload@, 0, edit, key_mapping@, pssh@, false, Seq::empty())
                == moov_children(
                payload@,
                i as int,
                edit,
                key_mapping@,
                pssh@,
                wrote,
                children@,
            ),
        decreases headers.len() - i,
    {
        let h: BoxHeader = headers[i];
        if same_code(&h.box_type, &box_type::TRAK) {
            match edit_trak(cmaf::box_payload(payload, &h), edit, key_mapping) {
                Ok(b) => bytes::put_bytes(&mut children, b.as_slice()),
                Err(e) => {
                    return Err(e);
                },
            }
        } else if same_code(&h.box_type, &box_type::PSSH) && !injecting {
            if rewriting && !wrote {
                bytes::put_bytes(&mut children, pssh);
                wrote = true;
            }
        } else {
            bytes::put_bytes(&mut children, cmaf::whole_box(payload, &h));
        }
        i = i + 1;
    }
    match fault {
        Some(e) => Err(e),
        None => {
            if injecting || (rewriting && !wrote) {
                bytes::put_bytes(&mut children, pssh);
            }
            Ok(cmaf::make_box(&box_type::MOOV, children.as_slice()))
        },
    }
}

/// What one DRM system contributes: its keys in order of first use, and its data.
pub struct SystemGroup {
    pub system_id: [u8; 16],
    pub kids: Vec<[u8; 16]>,
    pub data: Vec<u8>,
}

/// The content of a [`SystemGroup`].
pub struct GroupView {
    pub system_id: Seq<u8>,
    pub kids: Seq<Seq<u8>>,
    pub data: Seq<u8>,
}

impl View for SystemGroup {
    type V = GroupView;

    open spec fn view(&self) -> GroupView {
        GroupView {
            system_id: self.system_id@,
            kids: cmaf::kids_view(self.kids@),
            data: self.data@,
        }
    }
}

/// The contents of a list of groups.
pub open spec fn groups_view(groups: Seq<SystemGroup>) -> Seq<GroupView> {
    groups.map_values(|g: SystemGroup| g@)
}

/// The position of the group for a system, at or after `i`.
pub open spec fn group_at(groups: Seq<GroupView>, system_id: Seq<u8>, i: int) -> Option<int>
    decreases groups.len() - i,
{
    if i < 0 || i >= groups.len() {
        None
    } else if groups[i].system_id == system_id {
        Some(i)
    } else {
        group_at(groups, system_id, i + 1)
    }
}

/// The groups after one more system entry: its key joins the group of its system, or
/// opens a new group.
pub open spec fn with_system(groups: Seq<GroupView>, d: SystemView) -> Seq<GroupView> {
    match group_at(groups, d.system_id, 0) {
        Some(i) => groups.update(
            i,
            GroupView {
                system_id: groups[i].system_id,
                kids: codec::with_kid(groups[i].kids, d.kid),
                data: groups[i].data,
            },
        ),
        None => groups.push(
            GroupView { system_id: d.system_id, kids: seq![d.kid], data: d.pssh_data },
        ),
    }
}

/// The first `n` system entries grouped by system. FairPlay has no part in CENC.
pub open spec fn system_groups(
    systems: Seq<SystemView>,
    scheme: EncryptionScheme,
    n: nat,
) -> Seq<GroupView>
    decreases n,
{
    if n == 0 {
        Seq::empty()
    } else {
        let before = system_groups(systems, scheme, (n - 1) as nat);
        if scheme is Cenc && systems[n - 1].system_id == system_ids::FAIRPLAY@ {
            before
        } else {
            with_system(before, systems[n - 1])
        }
    }
}

/// `kids` followed by those of the first `n` of `more` that are not in it yet.
pub open spec fn merged_kids(kids: Seq<Seq<u8>>, more: Seq<Seq<u8>>, n: nat) -> Seq<Seq<u8>>
    decreases n,
{
    if n == 0 {
        kids
    } else {
        codec::with_kid(merged_kids(kids, more, (n - 1) as nat), more[n - 1])
    }
}

/// The PSSH content for a group: with several track keys, all of them are listed.
pub open spec fn group_pssh(g: GroupView, mapping: Seq<(TrackType, Seq<u8>)>) -> PsshView {
    let all = codec::distinct_kids(mapping, mapping.len());
    PsshView {
        version: 1,
        system_id: g.system_id,
        key_ids: if all.len() > 1 {
            merged_kids(g.kids, all, all.len())
        } else {
            g.kids
        },
        data: g.data,
    }
}

/// The PSSH boxes of the first `n` groups.
pub open spec fn group_boxes(
    groups: Seq<GroupView>,
    mapping: Seq<(TrackType, Seq<u8>)>,
    n: nat,
) -> Seq<u8>
    decreases n,
{
    if n == 0 {
        Seq::empty()
    } else {
        group_boxes(groups, mapping, (n - 1) as nat) + cmaf::boxed(
            box_type::PSSH@,
            cmaf::pssh_payload(group_pssh(groups[n - 1], mapping)),
        )
    }
}

/// The PSSH boxes for a target scheme: one per DRM system.
pub open spec fn pssh_boxes(
    systems: Seq<SystemView>,
    mapping: Seq<(TrackType, Seq<u8>)>,
    scheme: EncryptionScheme,
) -> Seq<u8> {
    let groups = system_groups(systems, scheme, systems.len());
    group_boxes(groups, mapping, groups.len())
}

/// The position of the group for a system.
fn find_group(groups: &Vec<SystemGroup>, system_id: &[u8; 16]) -> (at: Option<usize>)
    ensures
        match (at, group_at(groups_view(groups@), system_id@, 0)) {
            (Some(i), Some(want)) => i == want && i < groups.len(),
            (None, None) => true,
            _ => false,
        },
{
    let mut i: usize = 0;
    while i < groups.len()
        invariant
            i <= groups.len(),
            group_at(groups_view(groups@), system_id@, 0) == group_at(
                groups_view(groups@),
                system_id@,
                i as int,
            ),
        decreases groups.len() - i,
    {
        assert(groups_view(groups@)[i as int] == groups@[i as int]@);
        if codec::same_kid(&groups[i].system_id, system_id) {
            return Some(i);
        }
        i = i + 1;
    }
    None
}

/// Adds one system entry to the groups.
fn add_system(groups: &mut Vec<SystemGroup>, d: &DrmSystemData)
    ensures
        groups_view(final(groups)@) == with_system(groups_view(old(groups)@), d@),
{
    match find_group(groups, &d.system_id) {
        Some(i) => {
            assert(groups_view(groups@)[i as int] == groups@[i as int]@);
            let group: &mut SystemGroup = &mut groups[i];
            codec::add_kid(&mut group.kids, &d.kid);
            assert(groups_view(groups@) =~= with_system(groups_view(old(groups)@), d@));
        },
        None => {
            let mut kids: Vec<[u8; 16]> = Vec::new();
            kids.push(d.kid);
            assert(cmaf::kids_view(kids@) =~= seq![d.kid@]);
            groups.push(
                SystemGroup {
                    system_id: d.system_id,
                    kids,
                    data: bytes::to_vec(d.pssh_data.as_slice()),
                },
            );
            assert(groups_view(groups@) =~= with_system(groups_view(old(groups)@), d@));
        },
    }
}

/// Copies a list of key identifiers.
fn copy_kids(kids: &Vec<[u8; 16]>) -> (out: Vec<[u8; 16]>)
    ensures
        out@ == kids@,
{
    let mut out: Vec<[u8; 16]> = Vec::new();
    let mut i: usize = 0;
    while i < kids.len()
        invariant
            i <= kids.len(),
            out@ == kids@.subrange(0, i as int),
        decreases kids.len() - i,
    {
        out.push(kids[i]);
        i = i + 1;
        assert(out@ =~= kids@.subrange(0, i as int));
    }
    assert(out@ =~= kids@);
    out
}

/// Build PSSH boxes for the target encryption scheme from the DRM key set.
///
/// Groups DRM system entries by system_id and builds one PSSH v1 per system
/// with all unique KIDs. For CENC output: skips FairPlay (CBCS only).
///
/// When `key_mapping` has multiple KIDs, the PSSH boxes will contain
/// all track KIDs for each DRM system.
#[verifier::loop_isolation(false)]
pub fn build_pssh_boxes(
    key_set: &DrmKeySet,
    key_mapping: &TrackKeyMapping,
    target_scheme: EncryptionScheme,
) -> (r: Result<Vec<u8>, EdgepackError>)
    ensures
        r matches Ok(out) && out@ == pssh_boxes(key_set.systems(), key_mapping@, target_scheme),
{
    let ghost systems = key_set.systems();
    let mut groups: Vec<SystemGroup> = Vec::new();
    let mut i: usize = 0;
    assert(groups_view(groups@) =~= Seq::empty());
    while i < key_set.drm_systems.len()
        invariant
            i <= key_set.drm_systems.len(),
            groups_view(groups@) == system_groups(systems, target_scheme, i as nat),
        decreases key_set.drm_systems.len() - i,
    {
        let d: &DrmSystemData = &key_set.drm_systems[i];
        assert(systems[i as int] == d@);
        if target_scheme == EncryptionScheme::Cenc && codec::same_kid(
            &d.system_id,
            &system_ids::FAIRPLAY,
        ) {
        } else {
            add_system(&mut groups, d);
        }
        i = i + 1;
    }
    let ghost views = groups_view(groups@);
    let all: Vec<[u8; 16]> = key_mapping.all_kids();
    let ghost all_view = cmaf::kids_view(all@);
    assert(all_view.len() == all@.len());
    let mut out: Vec<u8> = Vec::new();
    let mut j: usize = 0;
    while j < groups.len()
        invariant
            j <= groups.len(),
            out@ == group_boxes(views, key_mapping@, j as nat),
        decreases groups.len() - j,
    {
        assert(views[j as int] == groups@[j as int]@);
        let mut kids: Vec<[u8; 16]> = copy_kids(&groups[j].kids);
        if all.len() > 1 {
            let mut k: usize = 0;
            while k < all.len()
                invariant
                    k <= all.len(),
                    cmaf::kids_view(kids@) == merged_kids(views[j as int].kids, all_view, k as nat),
                decreases all.len() - k,
            {
                assert(all_view[k as int] == all@[k as int]@);
                codec::add_kid(&mut kids, &all[k]);
                k = k + 1;
            }
        }
        let pssh: PsshBox = PsshBox {
            version: 1,
            system_id: groups[j].system_id,
            key_ids: kids,
            data: bytes::to_vec(groups[j].data.as_slice()),
        };
        assert(pssh@ == group_pssh(views[j as int], key_mapping@));
        bytes::put_bytes(&mut out, cmaf::build_pssh_box(&pssh).as_slice());
        j = j + 1;
    }
    Ok(out)
}

/// The top-level boxes of an init segment from position `i` on, after those in `got`:
/// the ftyp box replaced, the moov box edited when there is an edit, the rest copied.
pub open spec fn init_boxes(
    s: Seq<u8>,
    i: int,
    edit: Option<SampleEdit>,
    mapping: Seq<(TrackType, Seq<u8>)>,
    pssh: Seq<u8>,
    ftyp: Seq<u8>,
    got: Seq<u8>,
) -> Result<Seq<u8>, ErrorView>
    decreases cmaf::run(s).headers.len() - i,
{
    let r = cmaf::run(s);
    if i < 0 || i >= r.headers.len() {
        match r.fault {
            Some(e) => Err(e),
            None => Ok(got),
        }
    } else {
        let h = r.headers[i];
        let part = if h.box_type@ == box_type::FTYP@ {
            Ok(ftyp)
        } else if h.box_type@ == box_type::MOOV@ && edit is Some {
            edited_moov(cmaf::box_body(s, h), edit->Some_0, mapping, pssh)
        } else {
            Ok(cmaf::box_bytes(s, h))
        };
        match part {
            Ok(b) => init_boxes(s, i + 1, edit, mapping, pssh, ftyp, got + b),
            Err(e) => Err(e),
        }
    }
}

/// Edits the top-level boxes of an init segment.
#[verifier::loop_isolation(false)]
fn edit_init(
    init_data: &[u8],
    edit: Option<SampleEdit>,
    key_mapping: &TrackKeyMapping,
    pssh: &[u8],
    container_format: ContainerFormat,
) -> (r: Result<Vec<u8>, EdgepackError>)
    ensures
        cmaf::outcome_view(r) == init_boxes(
            init_data@,
            0,
            edit,
            key_mapping@,
            pssh@,
            container_format.ftyp(),
            Seq::empty(),
        ),
{
    let (headers, fault) = cmaf::scan_boxes(init_data);
    let ftyp: Vec<u8> = container_format.build_ftyp();
    let mut out: Vec<u8> = Vec::new();
    let mut i: usize = 0;
    while i < headers.len()
        invariant
            i <= headers.len(),
            init_boxes(init_data@, 0, edit, key_mapping@, pssh@, ftyp@, Seq::empty())
                == init_boxes(
                init_data@,
                i as int,
                edit,
                key_mapping@,
                pssh@,
                ftyp@,
                out@,
            ),
        decreases headers.len() - i,
    {
        let h: BoxHeader = headers[i];
        if same_code(&h.box_type, &box_type::FTYP) {
            bytes::put_bytes(&mut out, ftyp.as_slice());
        } else if same_code(&h.box_type, &box_type::MOOV) && edit.is_some() {
            match edit_moov(cmaf::box_payload(init_data, &h), edit.unwrap(), key_mapping, pssh) {
                Ok(b) => bytes::put_bytes(&mut out, b.as_slice()),
                Err(e) => {
                    return Err(e);
                },
            }
        } else {
            bytes::put_bytes(&mut out, cmaf::whole_box(init_data, &h));
        }
        i = i + 1;
    }
    match fault {
        Some(e) => Err(e),
        None => Ok(out),
    }
}

/// An init segment after an edit of its protection.
pub open spec fn edited_init(
    s: Seq<u8>,
    edit: SampleEdit,
    systems: Seq<SystemView>,
    mapping: Seq<(TrackType, Seq<u8>)>,
    format: ContainerFormat,
) -> Result<Seq<u8>, ErrorView> {
    init_boxes(
        s,
        0,
        Some(edit),
        mapping,
        match edit {
            SampleEdit::Rewrite(t) => pssh_boxes(systems, mapping, t.scheme),
            SampleEdit::Inject(t) => pssh_boxes(systems, mapping, t.scheme),
            SampleEdit::Strip => Seq::empty(),
        },
        format.ftyp(),
        Seq::empty(),
    )
}

/// Rewrite an init segment to the target encryption scheme.
///
/// This modifies:
/// - `schm` box: set scheme type to target (cbcs/cenc)
/// - `tenc` box: update pattern encryption fields for target scheme
/// - `pssh` boxes: filter/add PSSH boxes appropriate for the target scheme
///
/// The `key_mapping` parameter controls which KID is used per track type.
/// For single-key content, use `TrackKeyMapping::single(kid)`.
///
/// Returns the rewritten init segment data.
pub fn rewrite_init_segment(
    init_data: &[u8],
    key_set: &DrmKeySet,
    key_mapping: &TrackKeyMapping,
    target_scheme: EncryptionScheme,
    target_iv_size: u8,
    target_pattern: (u8, u8),
    container_format: ContainerFormat,
) -> (r: Result<Vec<u8>, EdgepackError>)
    ensures
        cmaf::outcome_view(r) == edited_init(
            init_data@,
            SampleEdit::Rewrite(
                (Target { scheme: target_scheme, iv_size: target_iv_size, pattern: target_pattern }),
            ),
            key_set.systems(),
            key_mapping@,
            container_format,
        ),
{
    let target: Target = Target {
        scheme: target_scheme,
        iv_size: target_iv_size,
        pattern: target_pattern,
    };
    match build_pssh_boxes(key_set, key_mapping, target_scheme) {
        Ok(pssh) => edit_init(
            init_data,
            Some(SampleEdit::Rewrite(target)),
            key_mapping,
            pssh.as_slice(),
            container_format,
        ),
        Err(e) => Err(e),
    }
}

/// Rewrite only the ftyp box for container format conversion (clear-to-clear path).
///
/// All other boxes are passed through unchanged. This is used when both source
/// and target are unencrypted and only the container format needs updating.
pub fn rewrite_ftyp_only(init_data: &[u8], container_format: ContainerFormat) -> (r: Result<
    Vec<u8>,
    EdgepackError,
>)
    ensures
        cmaf::outcome_view(r) == init_boxes(
            init_data@,
            0,
            None,
            Seq::empty(),
            Seq::empty(),
            container_format.ftyp(),
            Seq::empty(),
        ),
{
    let mapping: TrackKeyMapping = TrackKeyMapping::from_tracks(&[]);
    assert(mapping@ =~= Seq::empty());
    let none: Vec<u8> = Vec::new();
    edit_init(init_data, None, &mapping, none.as_slice(), container_format)
}

/// Inject protection info into a clear init segment for clear-to-encrypted transform.
///
/// This transforms a clear init segment into an encrypted one by:
/// 1. Rewriting ftyp with container-format-specific brands
/// 2. Renaming sample entries (avc1→encv, mp4a→enca, etc.)
/// 3. Injecting sinf/frma/schm/schi/tenc into each sample entry
/// 4. Adding PSSH boxes to moov
///
/// The `key_mapping` parameter controls which KID is used per track type.
pub fn create_protection_info(
    init_data: &[u8],
    key_set: &DrmKeySet,
    key_mapping: &TrackKeyMapping,
    target_scheme: EncryptionScheme,
    target_iv_size: u8,
    target_pattern: (u8, u8),
    container_format: ContainerFormat,
) -> (r: Result<Vec<u8>, EdgepackError>)
    ensures
        cmaf::outcome_view(r) == edited_init(
            init_data@,
            SampleEdit::Inject(
                (Target { scheme: target_scheme, iv_size: target_iv_size, pattern: target_pattern }),
            ),
            key_set.systems(),
            key_mapping@,
            container_format,
        ),
{
    let target: Target = Target {
        scheme: target_scheme,
        iv_size: target_iv_size,
        pattern: target_pattern,
    };
    match build_pssh_boxes(key_set, key_mapping, target_scheme) {
        Ok(pssh) => edit_init(
            init_data,
            Some(SampleEdit::Inject(target)),
            key_mapping,
            pssh.as_slice(),
            container_format,
        ),
        Err(e) => Err(e),
    }
}

/// Strip protection info from an encrypted init segment for encrypted-to-clear transform.
///
/// This transforms an encrypted init segment into a clear one by:
/// 1. Rewriting ftyp with container-format-specific brands
/// 2. Restoring sample entry names from sinf/frma (encv→avc1, enca→mp4a, etc.)
/// 3. Removing sinf boxes from sample entries
/// 4. Removing PSSH boxes from moov
pub fn strip_protection_info(init_data: &[u8], container_format: ContainerFormat) -> (r: Result<
    Vec<u8>,
    EdgepackError,
>)
    ensures
        cmaf::outcome_view(r) == edited_init(
            init_data@,
            SampleEdit::Strip,
            Seq::empty(),
            Seq::empty(),
            container_format,
        ),
{
    let mapping: TrackKeyMapping = TrackKeyMapping::from_tracks(&[]);
    assert(mapping@ =~= Seq::empty());
    let none: Vec<u8> = Vec::new();
    edit_init(init_data, Some(SampleEdit::Strip), &mapping, none.as_slice(), container_format)
}

/// Where the first sinf box at or after `i` stands.
pub open spec fn find_sinf(s: Seq<u8>, i: int) -> Option<int>
    decreases s.len() - i,
{
    if i < 0 || i + 8 > s.len() {
        None
    } else if sinf_starts(s, i, 8) {
        Some(i)
    } else {
        find_sinf(s, i + 1)
    }
}

/// What a sinf payload says, as far as it has been read.
pub struct SinfView {
    pub original_format: Seq<u8>,
    pub scheme_type: Seq<u8>,
    pub scheme_version: u32,
    pub tenc: Option<TencView>,
}

/// What the box `h` of a sinf payload adds.
pub open spec fn sinf_step(s: Seq<u8>, h: BoxHeader, got: SinfView) -> Result<SinfView, ErrorView> {
    let b = cmaf::box_body(s, h);
    if h.box_type@ == box_type::FRMA@ {
        if b.len() >= 4 {
            Ok(SinfView { original_format: b.subrange(0, 4), ..got })
        } else {
            Ok(got)
        }
    } else if h.box_type@ == box_type::SCHM@ {
        if b.len() >= 12 {
            Ok(
                SinfView {
                    scheme_type: b.subrange(4, 8),
                    scheme_version: bytes::be32(b, 8),
                    ..got
                },
            )
        } else {
            Ok(got)
        }
    } else if h.box_type@ == box_type::SCHI@ {
        match cmaf::child(b, box_type::TENC@) {
            Some(t) => if t.offset + t.size <= b.len() {
                match cmaf::tenc_of(cmaf::box_body(b, t)) {
                    Ok(tenc) => Ok(SinfView { tenc: Some(tenc), ..got }),
                    Err(e) => Err(e),
                }
            } else {
                Ok(got)
            },
            None => Ok(got),
        }
    } else {
        Ok(got)
    }
}

/// What the boxes of a sinf payload from position `i` on add.
pub open spec fn sinf_scan(s: Seq<u8>, i: int, got: SinfView) -> Result<SinfView, ErrorView>
    decreases cmaf::run(s).headers.len() - i,
{
    let headers = cmaf::run(s).headers;
    if i < 0 || i >= headers.len() {
        Ok(got)
    } else {
        match sinf_step(s, headers[i], got) {
            Ok(next) => sinf_scan(s, i + 1, next),
            Err(e) => Err(e),
        }
    }
}

/// The protection that the first sinf box in `s` describes, if it holds a tenc box.
pub open spec fn protection_of(s: Seq<u8>) -> Result<Option<ProtectionView>, ErrorView> {
    match find_sinf(s, 0) {
        None => Ok(None),
        Some(at) => match sinf_scan(
            s.subrange(at + 8, at + bytes::be32(s, at)),
            0,
            SinfView {
                original_format: bytes::zeros(4),
                scheme_type: bytes::zeros(4),
                scheme_version: 0,
                tenc: None,
            },
        ) {
            Err(e) => Err(e),
            Ok(v) => Ok(
                match v.tenc {
                    Some(tenc) => Some(
                        ProtectionView {
                            original_format: v.original_format,
                            scheme_type: v.scheme_type,
                            scheme_version: v.scheme_version,
                            tenc,
                        },
                    ),
                    None => None,
                },
            ),
        },
    }
}

/// What a sinf payload says.
struct SinfInfo {
    original_format: FourCC,
    scheme_type: FourCC,
    scheme_version: u32,
    tenc: Option<TrackEncryptionBox>,
}

impl View for SinfInfo {
    type V = SinfView;

    closed spec fn view(&self) -> SinfView {
        SinfView {
            original_format: self.original_format@,
            scheme_type: self.scheme_type@,
            scheme_version: self.scheme_version,
            tenc: match self.tenc {
                Some(t) => Some(t@),
                None => None,
            },
        }
    }
}

/// Adds what one box of a sinf payload says.
fn read_sinf_box(payload: &[u8], h: &BoxHeader, got: SinfInfo) -> (r: Result<
    SinfInfo,
    EdgepackError,
>)
    ensures
        cmaf::outcome_view(r) == sinf_step(payload@, *h, got@),
{
    let body: &[u8] = cmaf::box_payload(payload, h);
    let mut info: SinfInfo = got;
    if same_code(&h.box_type, &box_type::FRMA) {
        if body.len() >= 4 {
            info.original_format = bytes::read_4(body, 0);
        }
    } else if same_code(&h.box_type, &box_type::SCHM) {
        if body.len() >= 12 {
            info.scheme_type = bytes::read_4(body, 4);
            info.scheme_version = bytes::read_u32(body, 8);
        }
    } else if same_code(&h.box_type, &box_type::SCHI) {
        if let Some(t) = cmaf::find_child_box(body, &box_type::TENC) {
            if t.offset as u128 + t.size as u128 <= body.len() as u128 {
                match cmaf::parse_tenc(cmaf::box_payload(body, &t)) {
                    Ok(tenc) => {
                        info.tenc = Some(tenc);
                    },
                    Err(e) => {
                        return Err(e);
                    },
                }
            }
        }
    }
    Ok(info)
}

/// A result that may hold nothing, with its parts replaced by their views.
pub open spec fn protection_outcome(r: Result<Option<ProtectionSchemeInfo>, EdgepackError>) -> Result<
    Option<ProtectionView>,
    ErrorView,
> {
    match r {
        Ok(Some(p)) => Ok(Some(p@)),
        Ok(None) => Ok(None),
        Err(e) => Err(e@),
    }
}

/// Parse the protection info from an init segment's sinf box.
/// Returns None if no sinf/encryption is found.
#[verifier::loop_isolation(false)]
pub fn parse_protection_info(init_data: &[u8]) -> (r: Result<
    Option<ProtectionSchemeInfo>,
    EdgepackError,
>)
    ensures
        protection_outcome(r) == protection_of(init_data@),
{
    let mut at: usize = 0;
    while init_data.len() >= 8 && at <= init_data.len() - 8
        invariant
            at <= init_data.len(),
            find_sinf(init_data@, 0) == find_sinf(init_data@, at as int),
        decreases init_data.len() - at,
    {
        if at_sinf(init_data, at, 8) {
            let size: usize = bytes::read_u32(init_data, at) as usize;
            let payload: &[u8] = &init_data[at + 8..at + size];
            let (headers, _fault) = cmaf::scan_boxes(payload);
            let mut info: SinfInfo = SinfInfo {
                original_format: [0u8; 4],
                scheme_type: [0u8; 4],
                scheme_version: 0,
                tenc: None,
            };
            assert(info.original_format@ =~= bytes::zeros(4));
            let ghost first = info@;
            let mut i: usize = 0;
            while i < headers.len()
                invariant
                    i <= headers.len(),
                    sinf_scan(payload@, 0, first) == sinf_scan(payload@, i as int, info@),
                decreases headers.len() - i,
            {
                let h: BoxHeader = headers[i];
                match read_sinf_box(payload, &h, info) {
                    Ok(next) => {
                        info = next;
                    },
                    Err(e) => {
                        return Err(e);
                    },
                }
                i = i + 1;
            }
            return match info.tenc {
                Some(tenc) => Ok(
                    Some(
                        ProtectionSchemeInfo {
                            original_format: info.original_format,
                            scheme_type: info.scheme_type,
                            scheme_version: info.scheme_version,
                            tenc,
                        },
                    ),
                ),
                None => Ok(None),
            };
        }
        at = at + 1;
    }
    Ok(None)
}

pub proof fn lemma_group_at(groups: Seq<GroupView>, system_id: Seq<u8>, i: int)
    requires
        0 <= i,
    ensures
        match group_at(groups, system_id, i) {
            Some(k) => i <= k < groups.len() && groups[k].system_id == system_id,
            None => forall|k: int|
                i <= k < groups.len() ==> (#[trigger] groups[k]).system_id != system_id,
        },
    decreases groups.len() - i,
{
    if i < groups.len() && groups[i].system_id != system_id {
        lemma_group_at(groups, system_id, i + 1);
    }
}

/// Whether no two groups are for the same system.
pub open spec fn one_per_system(groups: Seq<GroupView>) -> bool {
    forall|i: int, j: int|
        0 <= i < j < groups.len() ==> (#[trigger] groups[i]).system_id != (
        #[trigger] groups[j]).system_id
}

/// Whether one of the groups is for a system.
pub open spec fn has_group(groups: Seq<GroupView>, system_id: Seq<u8>) -> bool {
    exists|k: int| 0 <= k < groups.len() && (#[trigger] groups[k]).system_id == system_id
}

/// A group for each system stays when another system is added, and that one has a group then.
proof fn lemma_groups_stay(groups: Seq<GroupView>, d: SystemView, system_id: Seq<u8>)
    requires
        has_group(groups, system_id) || d.system_id == system_id,
    ensures
        has_group(with_system(groups, d), system_id),
{
    let after = with_system(groups, d);
    lemma_group_at(groups, d.system_id, 0);
    if has_group(groups, system_id) {
        let k = choose|k: int|
            0 <= k < groups.len() && (#[trigger] groups[k]).system_id == system_id;
        assert(after[k].system_id == system_id);
    } else if let Some(i) = group_at(groups, d.system_id, 0) {
        assert(after[i].system_id == system_id);
    } else {
        assert(after[groups.len() as int].system_id == system_id);
    }
}

/// Every DRM system gets one PSSH box, whichever number of entries it has, but FairPlay gets none
/// under CENC.
pub proof fn one_header_per_system(systems: Seq<SystemView>, scheme: EncryptionScheme, n: nat)
    requires
        n <= systems.len(),
    ensures
        one_per_system(system_groups(systems, scheme, n)),
        forall|i: int|
            0 <= i < n && !(scheme is Cenc && (#[trigger] systems[i]).system_id
                == system_ids::FAIRPLAY@) ==> has_group(
                system_groups(systems, scheme, n),
                systems[i].system_id,
            ),
        scheme is Cenc ==> forall|k: int|
            0 <= k < system_groups(systems, scheme, n).len() ==> (#[trigger] system_groups(
                systems,
                scheme,
                n,
            )[k]).system_id != system_ids::FAIRPLAY@,
    decreases n,
{
    if n > 0 {
        one_header_per_system(systems, scheme, (n - 1) as nat);
        let before = system_groups(systems, scheme, (n - 1) as nat);
        lemma_group_at(before, systems[n - 1].system_id, 0);
        assert forall|i: int|
            0 <= i < n && !(scheme is Cenc && (#[trigger] systems[i]).system_id
                == system_ids::FAIRPLAY@) implies has_group(
            system_groups(systems, scheme, n),
            systems[i].system_id,
        ) by {
            if !(scheme is Cenc && systems[n - 1].system_id == system_ids::FAIRPLAY@) {
                lemma_groups_stay(before, systems[n - 1], systems[i].system_id);
            }
        }
    }
}

} // verus!
