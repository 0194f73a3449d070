//! Repackaging of media segments between encryption schemes.

use crate::bytes;
use crate::drm::sample_cryptor::{create_decryptor, create_encryptor};
use crate::drm::sample_cryptor;
use crate::drm::sample_cryptor::{CryptorView, SampleCryptor};
use crate::drm::scheme::EncryptionScheme;
use crate::drm::ContentKey;
use crate::error::{EdgepackError, ErrorView};
use crate::media::box_type;
use crate::media::cmaf;
use crate::media::cmaf::{
    BoxHeader, SampleEncryptionBox, SencEntry, SencEntryView, SencView, SubsampleEntry, TrackRunBox,
    TrunEntry, TrunView,
};
use crate::media::fragment;
use crate::media::round_trip;
use crate::media::same_code;
use crate::text;
use vstd::prelude::*;

verus! {

/// Parameters for repackaging a media segment between encryption schemes.
///
/// Supports any combination: encrypted to encrypted, clear to encrypted,
/// encrypted to clear, and clear to clear (pass-through).
pub struct SegmentRewriteParams {
    /// Source content key for decryption. None when source is clear.
    pub source_key: Option<ContentKey>,
    /// Target content key for encryption. None when target is clear.
    pub target_key: Option<ContentKey>,
    /// Source encryption scheme.
    pub source_scheme: EncryptionScheme,
    /// Target encryption scheme.
    pub target_scheme: EncryptionScheme,
    /// Per-sample IV size from source tenc box.
    pub source_iv_size: u8,
    /// Per-sample IV size for output.
    pub target_iv_size: u8,
    /// Source encryption pattern: (crypt_byte_block, skip_byte_block).
    pub source_pattern: (u8, u8),
    /// Target encryption pattern: (crypt_byte_block, skip_byte_block).
    pub target_pattern: (u8, u8),
    /// Constant IV from tenc (for CBCS when per_sample_iv_size == 0).
    pub constant_iv: Option<Vec<u8>>,
    /// Segment sequence number (used for generating IVs).
    pub segment_number: u32,
}

/// A failed rewrite with a fixed message.
pub open spec fn rewrite_err<T>(message: &str) -> Result<T, ErrorView> {
    Err(ErrorView::SegmentRewrite(message@))
}

/// The last of the first `n` headers with a type.
pub open spec fn last_header(headers: Seq<BoxHeader>, n: nat, code: Seq<u8>) -> Option<BoxHeader>
    decreases n,
{
    if n == 0 {
        None
    } else if headers[n - 1].box_type@ == code {
        Some(headers[n - 1])
    } else {
        last_header(headers, (n - 1) as nat, code)
    }
}

/// The payloads of the last moof and the last mdat box of a segment.
pub open spec fn segment_parts(s: Seq<u8>) -> Result<(Seq<u8>, Seq<u8>), ErrorView> {
    let r = cmaf::run(s);
    match r.fault {
        Some(e) => Err(e),
        None => match last_header(r.headers, r.headers.len(), box_type::MOOF@) {
            None => rewrite_err("no moof box found"),
            Some(moof) => match last_header(r.headers, r.headers.len(), box_type::MDAT@) {
                None => rewrite_err("no mdat box found"),
                Some(mdat) => Ok((cmaf::box_body(s, moof), cmaf::box_body(s, mdat))),
            },
        },
    }
}

/// The content of a pair of payloads.
pub open spec fn parts_outcome(r: Result<(&[u8], &[u8]), EdgepackError>) -> Result<
    (Seq<u8>, Seq<u8>),
    ErrorView,
> {
    match r {
        Ok(p) => Ok((p.0@, p.1@)),
        Err(e) => Err(e@),
    }
}

/// Find the payloads of the moof and mdat boxes in segment data.
pub fn find_moof_mdat<'a>(segment_data: &'a [u8]) -> (r: Result<
    (&'a [u8], &'a [u8]),
    EdgepackError,
>)
    ensures
        parts_outcome(r) == segment_parts(segment_data@),
{
    let (headers, fault) = cmaf::scan_boxes(segment_data);
    if let Some(e) = fault {
        return Err(e);
    }
    let mut moof: Option<BoxHeader> = None;
    let mut mdat: Option<BoxHeader> = None;
    let mut i: usize = 0;
    while i < headers.len()
        invariant
            i <= headers.len(),
            moof == last_header(headers@, i as nat, box_type::MOOF@),
            mdat == last_header(headers@, i as nat, box_type::MDAT@),
        decreases headers.len() - i,
    {
        let h: BoxHeader = headers[i];
        proof {
            assert(box_type::MOOF@[1] != box_type::MDAT@[1]);
        }
        if same_code(&h.box_type, &box_type::MOOF) {
            moof = Some(h);
        } else if same_code(&h.box_type, &box_type::MDAT) {
            mdat = Some(h);
        }
        i = i + 1;
    }
    let moof_header: BoxHeader = match moof {
        Some(h) => h,
        None => return Err(EdgepackError::segment_rewrite("no moof box found")),
    };
    let mdat_header: BoxHeader = match mdat {
        Some(h) => h,
        None => return Err(EdgepackError::segment_rewrite("no mdat box found")),
    };
    Ok(
        (
            cmaf::box_payload(segment_data, &moof_header),
            cmaf::box_payload(segment_data, &mdat_header),
        ),
    )
}

/// The IV of a sample: its own, else the constant one.
pub open spec fn iv_of(index: nat, entry: SencEntryView, constant_iv: Option<Seq<u8>>) -> Result<
    Seq<u8>,
    ErrorView,
> {
    if entry.iv.len() > 0 {
        Ok(entry.iv)
    } else {
        match constant_iv {
            Some(iv) => Ok(iv),
            None => Err(
                ErrorView::SegmentRewrite(
                    "no IV for sample "@ + text::dec(index)
                        + ": senc entry has no IV and no constant IV configured"@,
                ),
            ),
        }
    }
}

/// Resolve the IV for a sample from the senc entry or constant IV.
pub fn resolve_iv(sample_index: usize, entry: &SencEntry, constant_iv: &Option<Vec<u8>>) -> (r:
    Result<Vec<u8>, EdgepackError>)
    ensures
        cmaf::outcome_view(r) == iv_of(
            sample_index as nat,
            entry@,
            cmaf::opt_bytes(*constant_iv),
        ),
{
    if entry.iv.len() > 0 {
        return Ok(bytes::to_vec(entry.iv.as_slice()));
    }
    match constant_iv {
        Some(iv) => Ok(bytes::to_vec(iv.as_slice())),
        None => {
            let mut message: String = "no IV for sample ".to_owned();
            text::put_dec(&mut message, sample_index as u64);
            message.push_str(": senc entry has no IV and no constant IV configured");
            Err(EdgepackError::SegmentRewrite(message))
        },
    }
}

/// Subsample ranges as pairs of clear and protected bytes.
pub open spec fn pairs_of(subs: Option<Seq<SubsampleEntry>>) -> Option<Seq<(u32, u32)>> {
    match subs {
        Some(list) => Some(
            list.map_values(|e: SubsampleEntry| (e.clear_bytes as u32, e.encrypted_bytes)),
        ),
        None => None,
    }
}

/// The content of an optional list of pairs.
pub open spec fn opt_pairs(pairs: Option<Vec<(u32, u32)>>) -> Option<Seq<(u32, u32)>> {
    match pairs {
        Some(list) => Some(list@),
        None => None,
    }
}

/// The content of an optional list of subsample ranges.
pub open spec fn opt_ranges(subs: Option<Vec<SubsampleEntry>>) -> Option<Seq<SubsampleEntry>> {
    match subs {
        Some(list) => Some(list@),
        None => None,
    }
}

/// Extract subsample pairs.
pub fn subsample_pairs(subsamples: &Option<Vec<SubsampleEntry>>) -> (pairs: Option<
    Vec<(u32, u32)>,
>)
    ensures
        opt_pairs(pairs) == pairs_of(opt_ranges(*subsamples)),
{
    match subsamples {
        None => None,
        Some(list) => {
            let mut pairs: Vec<(u32, u32)> = Vec::new();
            let mut i: usize = 0;
            while i < list.len()
                invariant
                    i <= list.len(),
                    pairs@ == list@.subrange(0, i as int).map_values(
                        |e: SubsampleEntry| (e.clear_bytes as u32, e.encrypted_bytes),
                    ),
                decreases list.len() - i,
            {
                pairs.push((list[i].clear_bytes as u32, list[i].encrypted_bytes));
                i = i + 1;
                assert(pairs@ =~= list@.subrange(0, i as int).map_values(
                    |e: SubsampleEntry| (e.clear_bytes as u32, e.encrypted_bytes),
                ));
            }
            assert(list@.subrange(0, list@.len() as int) =~= list@);
            Some(pairs)
        },
    }
}

/// What a movie fragment says of its samples: the last senc and the last trun met.
pub struct MoofInfo {
    pub senc: Option<SencView>,
    pub trun: Option<TrunView>,
}

/// What the children of a traf box from position `i` on add to `got`. Without an IV size,
/// senc boxes are passed over.
pub open spec fn traf_info(s: Seq<u8>, i: int, iv_size: Option<u8>, got: MoofInfo) -> Result<
    MoofInfo,
    ErrorView,
>
    decreases cmaf::run(s).headers.len() - i,
{
    let r = cmaf::run(s);
    if i < 0 || i >= r.headers.len() {
        match r.fault {
            Some(e) => Err(e),
            None => Ok(got),
        }
    } else {
        let h = r.headers[i];
        let body = cmaf::box_body(s, h);
        if h.box_type@ == box_type::SENC@ && iv_size is Some {
            match cmaf::senc_of(body, iv_size->0) {
                Ok(v) => traf_info(s, i + 1, iv_size, MoofInfo { senc: Some(v), trun: got.trun }),
                Err(e) => Err(e),
            }
        } else if h.box_type@ == box_type::TRUN@ {
            match cmaf::trun_of(body) {
                Ok(v) => traf_info(s, i + 1, iv_size, MoofInfo { senc: got.senc, trun: Some(v) }),
                Err(e) => Err(e),
            }
        } else {
            traf_info(s, i + 1, iv_size, got)
        }
    }
}

/// What the children of a moof box from position `i` on add to `got`.
pub open spec fn moof_info(s: Seq<u8>, i: int, iv_size: Option<u8>, got: MoofInfo) -> Result<
    MoofInfo,
    ErrorView,
>
    decreases cmaf::run(s).headers.len() - i,
{
    let r = cmaf::run(s);
    if i < 0 || i >= r.headers.len() {
        match r.fault {
            Some(e) => Err(e),
            None => Ok(got),
        }
    } else if r.headers[i].box_type@ == box_type::TRAF@ {
        match traf_info(cmaf::box_body(s, r.headers[i]), 0, iv_size, got) {
            Ok(more) => moof_info(s, i + 1, iv_size, more),
            Err(e) => Err(e),
        }
    } else {
        moof_info(s, i + 1, iv_size, got)
    }
}

/// Nothing known yet.
pub open spec fn no_info() -> MoofInfo {
    MoofInfo { senc: None, trun: None }
}

/// The parsed boxes behind a [`MoofInfo`].
struct FragmentBoxes {
    senc: Option<SampleEncryptionBox>,
    trun: Option<TrackRunBox>,
}

impl View for FragmentBoxes {
    type V = MoofInfo;

    closed spec fn view(&self) -> MoofInfo {
        MoofInfo {
            senc: match self.senc {
                Some(b) => Some(b@),
                None => None,
            },
            trun: match self.trun {
                Some(b) => Some(b@),
                None => None,
            },
        }
    }
}

/// Adds what a traf box says.
#[verifier::loop_isolation(false)]
fn read_traf(payload: &[u8], iv_size: Option<u8>, got: FragmentBoxes) -> (r: Result<
    FragmentBoxes,
    EdgepackError,
>)
    ensures
        cmaf::outcome_view(r) == traf_info(payload@, 0, iv_size, got@),
{
    let (headers, fault) = cmaf::scan_boxes(payload);
    let mut found: FragmentBoxes = got;
    let mut i: usize = 0;
    while i < headers.len()
        invariant
            i <= headers.len(),
            traf_info(payload@, 0, iv_size, got@) == traf_info(
                payload@,
                i as int,
                iv_size,
                found@,
            ),
        decreases headers.len() - i,
    {
        let h: BoxHeader = headers[i];
        let body: &[u8] = cmaf::box_payload(payload, &h);
        if same_code(&h.box_type, &box_type::SENC) && iv_size.is_some() {
            let size: u8 = match iv_size {
                Some(size) => size,
                None => 0,
            };
            match cmaf::parse_senc(body, size) {
                Ok(senc) => {
                    found = FragmentBoxes { senc: Some(senc), trun: found.trun };
                },
                Err(e) => {
                    return Err(e);
                },
            }
        } else if same_code(&h.box_type, &box_type::TRUN) {
            match cmaf::parse_trun(body) {
                Ok(trun) => {
                    found = FragmentBoxes { senc: found.senc, trun: Some(trun) };
                },
                Err(e) => {
                    return Err(e);
                },
            }
        }
        i = i + 1;
    }
    match fault {
        Some(e) => Err(e),
        None => Ok(found),
    }
}

/// What a moof box says, given its payload.
#[verifier::loop_isolation(false)]
fn read_moof(payload: &[u8], iv_size: Option<u8>) -> (r: Result<FragmentBoxes, EdgepackError>)
    ensures
        cmaf::outcome_view(r) == moof_info(payload@, 0, iv_size, no_info()),
{
    let (headers, fault) = cmaf::scan_boxes(payload);
    let mut found: FragmentBoxes = FragmentBoxes { senc: None, trun: None };
    let mut i: usize = 0;
    while i < headers.len()
        invariant
            i <= headers.len(),
            moof_info(payload@, 0, iv_size, no_info()) == moof_info(
                payload@,
                i as int,
                iv_size,
                found@,
            ),
        decreases headers.len() - i,
    {
        let h: BoxHeader = headers[i];
        if same_code(&h.box_type, &box_type::TRAF) {
            match read_traf(cmaf::box_payload(payload, &h), iv_size, found) {
                Ok(more) => {
                    found = more;
                },
                Err(e) => {
                    return Err(e);
                },
            }
        }
        i = i + 1;
    }
    match fault {
        Some(e) => Err(e),
        None => Ok(found),
    }
}

/// The senc and trun of a moof box, given its payload.
pub open spec fn encryption_info(s: Seq<u8>, iv_size: u8) -> Result<
    (SencView, TrunView),
    ErrorView,
> {
    match moof_info(s, 0, Some(iv_size), no_info()) {
        Err(e) => Err(e),
        Ok(info) => match info.senc {
            None => rewrite_err("no senc box found in moof/traf"),
            Some(senc) => match info.trun {
                None => rewrite_err("no trun box found in moof/traf"),
                Some(trun) => Ok((senc, trun)),
            },
        },
    }
}

/// The content of a senc and a trun box.
pub open spec fn info_outcome(r: Result<(SampleEncryptionBox, TrackRunBox), EdgepackError>) -> Result<
    (SencView, TrunView),
    ErrorView,
> {
    match r {
        Ok(b) => Ok((b.0@, b.1@)),
        Err(e) => Err(e@),
    }
}

/// Parse the payload of a moof box to extract senc and trun information.
pub fn parse_moof_encryption_info(payload: &[u8], iv_size: u8) -> (r: Result<
    (SampleEncryptionBox, TrackRunBox),
    EdgepackError,
>)
    ensures
        info_outcome(r) == encryption_info(payload@, iv_size),
{
    let found: FragmentBoxes = match read_moof(payload, Some(iv_size)) {
        Ok(found) => found,
        Err(e) => return Err(e),
    };
    let senc: SampleEncryptionBox = match found.senc {
        Some(senc) => senc,
        None => return Err(EdgepackError::segment_rewrite("no senc box found in moof/traf")),
    };
    let trun: TrackRunBox = match found.trun {
        Some(trun) => trun,
        None => return Err(EdgepackError::segment_rewrite("no trun box found in moof/traf")),
    };
    Ok((senc, trun))
}

/// The trun of a moof box, given its payload.
pub open spec fn run_info(s: Seq<u8>) -> Result<TrunView, ErrorView> {
    match moof_info(s, 0, None, no_info()) {
        Err(e) => Err(e),
        Ok(info) => match info.trun {
            None => rewrite_err("no trun box found in moof/traf"),
            Some(trun) => Ok(trun),
        },
    }
}

/// Parse the payload of a moof box to extract trun only (no senc expected, for clear
/// content).
pub fn parse_moof_trun_only(payload: &[u8]) -> (r: Result<TrackRunBox, EdgepackError>)
    ensures
        cmaf::outcome_view(r) == run_info(payload@),
{
    let found: FragmentBoxes = match read_moof(payload, None) {
        Ok(found) => found,
        Err(e) => return Err(e),
    };
    match found.trun {
        Some(trun) => Ok(trun),
        None => Err(EdgepackError::segment_rewrite("no trun box found in moof/traf")),
    }
}

/// The sizes of the samples from `i` on, after those in `got`.
pub open spec fn sizes_from(entries: Seq<TrunEntry>, i: int, got: Seq<u32>) -> Result<
    Seq<u32>,
    ErrorView,
>
    decreases entries.len() - i,
{
    if i < 0 || i >= entries.len() {
        Ok(got)
    } else {
        match entries[i].sample_size {
            Some(size) => sizes_from(entries, i + 1, got.push(size)),
            None => rewrite_err("trun missing sample_size (flag 0x0200 not set)"),
        }
    }
}

/// Extract sample sizes from a trun box.
#[verifier::loop_isolation(false)]
pub fn extract_sample_sizes(trun: &TrackRunBox) -> (r: Result<Vec<u32>, EdgepackError>)
    ensures
        cmaf::outcome_view(r) == sizes_from(trun@.entries, 0, Seq::empty()),
{
    let mut sizes: Vec<u32> = Vec::new();
    let mut i: usize = 0;
    while i < trun.entries.len()
        invariant
            i <= trun.entries.len(),
            sizes_from(trun@.entries, 0, Seq::empty()) == sizes_from(
                trun@.entries,
                i as int,
                sizes@,
            ),
        decreases trun.entries.len() - i,
    {
        match trun.entries[i].sample_size {
            Some(size) => {
                sizes.push(size);
            },
            None => {
                return Err(
                    EdgepackError::segment_rewrite("trun missing sample_size (flag 0x0200 not set)"),
                );
            },
        }
        i = i + 1;
    }
    Ok(sizes)
}

/// How the traf boxes of a fragment change.
pub enum SencEdit<'a> {
    /// Every senc is replaced; saiz and saio are dropped.
    Replace(&'a Vec<SencEntry>, bool),
    /// A senc is added at the end.
    Inject(&'a Vec<SencEntry>),
    /// Senc, saiz and saio are dropped.
    Strip,
}

/// The content of a [`SencEdit`].
pub enum EditView {
    Replace(Seq<SencEntryView>, bool),
    Inject(Seq<SencEntryView>),
    Strip,
}

impl<'a> View for SencEdit<'a> {
    type V = EditView;

    open spec fn view(&self) -> EditView {
        match *self {
            SencEdit::Replace(entries, with_subs) => EditView::Replace(
                cmaf::senc_entries_view(entries@),
                with_subs,
            ),
            SencEdit::Inject(entries) => EditView::Inject(cmaf::senc_entries_view(entries@)),
            SencEdit::Strip => EditView::Strip,
        }
    }
}

/// A senc box.
pub open spec fn senc_box(entries: Seq<SencEntryView>, with_subs: bool) -> Seq<u8> {
    cmaf::boxed(box_type::SENC@, cmaf::senc_payload(entries, with_subs))
}

impl EditView {
    /// What a child of a traf box becomes.
    pub open spec fn child(self, s: Seq<u8>, h: BoxHeader) -> Seq<u8> {
        match self {
            EditView::Replace(entries, with_subs) => if h.box_type@ == box_type::SENC@ {
                senc_box(entries, with_subs)
            } else if h.box_type@ == box_type::SAIZ@ || h.box_type@ == box_type::SAIO@ {
                Seq::empty()
            } else {
                cmaf::box_bytes(s, h)
            },
            EditView::Inject(_) => cmaf::box_bytes(s, h),
            EditView::Strip => if h.box_type@ == box_type::SENC@ || h.box_type@ == box_type::SAIZ@
                || h.box_type@ == box_type::SAIO@ {
                Seq::empty()
            } else {
                cmaf::box_bytes(s, h)
            },
        }
    }

    /// What is added at the end of a traf box.
    pub open spec fn tail(self) -> Seq<u8> {
        match self {
            EditView::Inject(entries) => senc_box(entries, false),
            _ => Seq::empty(),
        }
    }
}

/// The children of a traf box from position `i` on, after those in `got`.
pub open spec fn traf_children(s: Seq<u8>, i: int, edit: EditView, got: Seq<u8>) -> Result<
    Seq<u8>,
    ErrorView,
>
    decreases cmaf::run(s).headers.len() - i,
{
    let r = cmaf::run(s);
    if i < 0 || i >= r.headers.len() {
        match r.fault {
            Some(e) => Err(e),
            None => Ok(got + edit.tail()),
        }
    } else {
        traf_children(s, i + 1, edit, got + edit.child(s, r.headers[i]))
    }
}

/// A traf box with its children edited, given its payload.
pub open spec fn edited_traf(s: Seq<u8>, edit: EditView) -> Result<Seq<u8>, ErrorView> {
    match traf_children(s, 0, edit, Seq::empty()) {
        Ok(c) => Ok(cmaf::boxed(box_type::TRAF@, c)),
        Err(e) => Err(e),
    }
}

/// Rebuild a traf box, given its payload.
#[verifier::loop_isolation(false)]
pub fn rebuild_traf(payload: &[u8], edit: &SencEdit) -> (r: Result<Vec<u8>, EdgepackError>)
    ensures
        cmaf::outcome_view(r) == edited_traf(payload@, edit@),
{
    let (headers, fault) = cmaf::scan_boxes(payload);
    let mut children: Vec<u8> = Vec::new();
    let mut i: usize = 0;
    while i < headers.len()
        invariant
            i <= headers.len(),
            traf_children(payload@, 0, edit@, Seq::empty()) == traf_children(
                payload@,
                i as int,
                edit@,
                children@,
            ),
        decreases headers.len() - i,
    {
        let h: BoxHeader = headers[i];
        let is_senc: bool = same_code(&h.box_type, &box_type::SENC);
        let is_aux: bool = same_code(&h.box_type, &box_type::SAIZ) || same_code(
            &h.box_type,
            &box_type::SAIO,
        );
        let ghost before = children@;
        match edit {
            SencEdit::Replace(entries, with_subs) => {
                if is_senc {
                    bytes::put_bytes(
                        &mut children,
                        cmaf::build_senc_box(entries.as_slice(), *with_subs).as_slice(),
                    );
                } else if !is_aux {
                    bytes::put_bytes(&mut children, cmaf::whole_box(payload, &h));
                } else {
                    assert(children@ =~= before + Seq::<u8>::empty());
                }
            },
            SencEdit::Inject(_) => {
                bytes::put_bytes(&mut children, cmaf::whole_box(payload, &h));
            },
            SencEdit::Strip => {
                if !is_senc && !is_aux {
                    bytes::put_bytes(&mut children, cmaf::whole_box(payload, &h));
                } else {
                    assert(children@ =~= before + Seq::<u8>::empty());
                }
            },
        }
        i = i + 1;
    }
    if let Some(e) = fault {
        return Err(e);
    }
    let ghost before = children@;
    match edit {
        SencEdit::Inject(entries) => {
            bytes::put_bytes(
                &mut children,
                cmaf::build_senc_box(entries.as_slice(), false).as_slice(),
            );
        },
        _ => {
            assert(children@ =~= before + Seq::<u8>::empty());
        },
    }
    Ok(cmaf::make_box(&box_type::TRAF, children.as_slice()))
}

/// The children of a moof box from position `i` on, after those in `got`.
pub open spec fn moof_children(s: Seq<u8>, i: int, edit: EditView, got: Seq<u8>) -> Result<
    Seq<u8>,
    ErrorView,
>
    decreases cmaf::run(s).headers.len() - i,
{
    let r = cmaf::run(s);
    if i < 0 || i >= r.headers.len() {
        match r.fault {
            Some(e) => Err(e),
            None => Ok(got),
        }
    } else {
        let h = r.headers[i];
        let part = if h.box_type@ == box_type::TRAF@ {
            edited_traf(cmaf::box_body(s, h), edit)
        } else {
            Ok(cmaf::box_bytes(s, h))
        };
        match part {
            Ok(b) => moof_children(s, i + 1, edit, got + b),
            Err(e) => Err(e),
        }
    }
}

/// A moof box with its traf boxes edited, given its payload.
pub open spec fn edited_moof(s: Seq<u8>, edit: EditView) -> Result<Seq<u8>, ErrorView> {
    match moof_children(s, 0, edit, Seq::empty()) {
        Ok(c) => Ok(cmaf::boxed(box_type::MOOF@, c)),
        Err(e) => Err(e),
    }
}

/// Rebuilds a moof box, given its payload.
#[verifier::loop_isolation(false)]
fn edit_moof(payload: &[u8], edit: &SencEdit) -> (r: Result<Vec<u8>, EdgepackError>)
    ensures
        cmaf::outcome_view(r) == edited_moof(payload@, edit@),
{
    let (headers, fault) = cmaf::scan_boxes(payload);
    let mut children: Vec<u8> = Vec::new();
    let mut i: usize = 0;
    while i < headers.len()
        invariant
            i <= headers.len(),
            moof_children(payload@, 0, edit@, Seq::empty()) == moof_children(
                payload@,
                i as int,
                edit@,
                children@,
            ),
        decreases headers.len() - i,
    {
        let h: BoxHeader = headers[i];
        if same_code(&h.box_type, &box_type::TRAF) {
            match rebuild_traf(cmaf::box_payload(payload, &h), edit) {
                Ok(traf) => bytes::put_bytes(&mut children, traf.as_slice()),
                Err(e) => {
                    return Err(e);
                },
            }
        } else {
            bytes::put_bytes(&mut children, cmaf::whole_box(payload, &h));
        }
        i = i + 1;
    }
    match fault {
        Some(e) => Err(e),
        None => Ok(cmaf::make_box(&box_type::MOOF, children.as_slice())),
    }
}

/// Rebuild the moof box with a new senc box, given its payload.
pub fn rebuild_moof(
    payload: &[u8],
    new_senc_entries: &Vec<SencEntry>,
    has_subsamples: bool,
) -> (r: Result<Vec<u8>, EdgepackError>)
    ensures
        cmaf::outcome_view(r) == edited_moof(
            payload@,
            EditView::Replace(cmaf::senc_entries_view(new_senc_entries@), has_subsamples),
        ),
{
    edit_moof(payload, &SencEdit::Replace(new_senc_entries, has_subsamples))
}

/// Rebuild moof with a new senc injected into traf (for clear-to-encrypted), given its
/// payload.
pub fn rebuild_moof_inject_senc(payload: &[u8], new_senc_entries: &Vec<SencEntry>) -> (r: Result<
    Vec<u8>,
    EdgepackError,
>)
    ensures
        cmaf::outcome_view(r) == edited_moof(
            payload@,
            EditView::Inject(cmaf::senc_entries_view(new_senc_entries@)),
        ),
{
    edit_moof(payload, &SencEdit::Inject(new_senc_entries))
}

/// Rebuild moof with senc/saiz/saio removed from traf (for encrypted-to-clear), given its
/// payload.
pub fn rebuild_moof_strip_senc(payload: &[u8]) -> (r: Result<Vec<u8>, EdgepackError>)
    ensures
        cmaf::outcome_view(r) == edited_moof(payload@, EditView::Strip),
{
    edit_moof(payload, &SencEdit::Strip)
}

/// Build a new mdat box with the given payload.
pub fn rebuild_mdat(payload: &[u8]) -> (out: Vec<u8>)
    ensures
        out@ == cmaf::boxed(box_type::MDAT@, payload@),
{
    cmaf::make_box(&box_type::MDAT, payload)
}

/// An IV of sixteen bytes: the first sixteen, or zeros in front.
pub open spec fn padded_iv(iv: Seq<u8>) -> Seq<u8> {
    if iv.len() >= 16 {
        iv.subrange(0, 16)
    } else {
        bytes::zeros((16 - iv.len()) as nat) + iv
    }
}

/// Pad an IV to 16 bytes (required for CBC mode).
pub fn pad_iv_to_16(iv: &[u8]) -> (out: Vec<u8>)
    ensures
        out@ == padded_iv(iv@),
        out@.len() == 16,
{
    if iv.len() >= 16 {
        return bytes::to_vec(&iv[0..16]);
    }
    let mut out: Vec<u8> = Vec::new();
    bytes::put_zeros(&mut out, 16 - iv.len());
    bytes::put_bytes(&mut out, iv);
    assert(out@ =~= padded_iv(iv@));
    out
}

/// The message for a sample that does not fit into the mdat payload.
pub open spec fn beyond_mdat(index: nat, offset: nat, size: nat, total: nat) -> ErrorView {
    ErrorView::SegmentRewrite(
        "sample "@ + text::dec(index) + " extends beyond mdat (offset="@ + text::dec(offset)
            + ", size="@ + text::dec(size) + ", mdat="@ + text::dec(total) + ")"@,
    )
}

/// The error for a sample that does not fit into the mdat payload.
fn beyond_mdat_error(index: usize, offset: usize, size: usize, total: usize) -> (e: EdgepackError)
    ensures
        e@ == beyond_mdat(index as nat, offset as nat, size as nat, total as nat),
{
    let mut message: String = "sample ".to_owned();
    text::put_dec(&mut message, index as u64);
    message.push_str(" extends beyond mdat (offset=");
    text::put_dec(&mut message, offset as u64);
    message.push_str(", size=");
    text::put_dec(&mut message, size as u64);
    message.push_str(", mdat=");
    text::put_dec(&mut message, total as u64);
    message.push_str(")");
    EdgepackError::SegmentRewrite(message)
}

/// The size of sample `i`; zero where the run has no such sample.
pub open spec fn size_at(sizes: Seq<u32>, i: int) -> nat {
    if 0 <= i < sizes.len() {
        sizes[i] as nat
    } else {
        0
    }
}

/// The IV under which a sample is decrypted.
pub open spec fn decryption_iv(scheme: EncryptionScheme, iv: Seq<u8>) -> Seq<u8> {
    if scheme is Cbcs {
        padded_iv(iv)
    } else {
        iv
    }
}

/// The mdat payload with the samples from `i` on decrypted; `got` holds the samples before.
/// What follows the last sample stays.
pub open spec fn decrypt_from(
    c: CryptorView,
    constant_iv: Option<Seq<u8>>,
    entries: Seq<SencEntryView>,
    sizes: Seq<u32>,
    data: Seq<u8>,
    i: int,
    got: Seq<u8>,
) -> Result<Seq<u8>, ErrorView>
    decreases entries.len() - i,
{
    let at = got.len();
    let size = size_at(sizes, i);
    if i < 0 || i >= entries.len() {
        Ok(got + data.subrange(at as int, data.len() as int))
    } else if at + size > data.len() {
        Err(beyond_mdat(i as nat, at, size, data.len()))
    } else {
        match iv_of(i as nat, entries[i], constant_iv) {
            Err(e) => Err(e),
            Ok(iv) => match c.crypted(
                false,
                decryption_iv(c.scheme, iv),
                data.subrange(at as int, (at + size) as int),
                pairs_of(entries[i].subsamples),
            ) {
                Err(e) => Err(e),
                Ok(x) => decrypt_from(c, constant_iv, entries, sizes, data, i + 1, got + x),
            },
        }
    }
}

/// Decrypts the samples of an mdat payload.
#[verifier::loop_isolation(false)]
fn decrypt_samples(
    c: &SampleCryptor,
    constant_iv: &Option<Vec<u8>>,
    entries: &Vec<SencEntry>,
    sizes: &Vec<u32>,
    data: &[u8],
) -> (r: Result<Vec<u8>, EdgepackError>)
    ensures
        cmaf::outcome_view(r) == decrypt_from(
            c@,
            cmaf::opt_bytes(*constant_iv),
            cmaf::senc_entries_view(entries@),
            sizes@,
            data@,
            0,
            Seq::empty(),
        ),
{
    let ghost views = cmaf::senc_entries_view(entries@);
    let ghost constant = cmaf::opt_bytes(*constant_iv);
    let mut out: Vec<u8> = Vec::new();
    let mut i: usize = 0;
    while i < entries.len()
        invariant
            i <= entries.len(),
            out@.len() <= data.len(),
            decrypt_from(c@, constant, views, sizes@, data@, 0, Seq::empty()) == decrypt_from(
                c@,
                constant,
                views,
                sizes@,
                data@,
                i as int,
                out@,
            ),
        decreases entries.len() - i,
    {
        assert(views[i as int] == entries@[i as int]@);
        let at: usize = out.len();
        let size: usize = if i < sizes.len() {
            sizes[i] as usize
        } else {
            0
        };
        if size > data.len() - at {
            return Err(beyond_mdat_error(i, at, size, data.len()));
        }
        let iv: Vec<u8> = match resolve_iv(i, &entries[i], constant_iv) {
            Ok(iv) => iv,
            Err(e) => return Err(e),
        };
        let sample_iv: Vec<u8> = match c.scheme {
            EncryptionScheme::Cbcs => pad_iv_to_16(iv.as_slice()),
            _ => iv,
        };
        let pairs: Option<Vec<(u32, u32)>> = subsample_pairs(&entries[i].subsamples);
        let subs: Option<&[(u32, u32)]> = match &pairs {
            Some(list) => Some(list.as_slice()),
            None => None,
        };
        match c.decrypt_sample(&data[at..at + size], sample_iv.as_slice(), subs) {
            Ok(sample) => {
                proof {
                    sample_cryptor::crypted_keeps_length(
                        c@,
                        false,
                        sample_iv@,
                        data@.subrange(at as int, at + size),
                        pairs_of(views[i as int].subsamples),
                    );
                }
                bytes::put_bytes(&mut out, sample.as_slice());
            },
            Err(e) => {
                return Err(e);
            },
        }
        i = i + 1;
    }
    let at: usize = out.len();
    bytes::put_bytes(&mut out, &data[at..data.len()]);
    Ok(out)
}

/// A sample to encrypt: its size and its subsample ranges.
pub struct SampleSpan {
    pub size: u32,
    pub subsamples: Option<Vec<SubsampleEntry>>,
}

/// The content of a [`SampleSpan`].
pub struct SpanView {
    pub size: u32,
    pub subsamples: Option<Seq<SubsampleEntry>>,
}

impl View for SampleSpan {
    type V = SpanView;

    open spec fn view(&self) -> SpanView {
        SpanView { size: self.size, subsamples: opt_ranges(self.subsamples) }
    }
}

/// The contents of a list of samples.
pub open spec fn spans_view(spans: Seq<SampleSpan>) -> Seq<SpanView> {
    spans.map_values(|s: SampleSpan| s@)
}

/// Samples that are encrypted as a whole.
pub open spec fn whole_spans(sizes: Seq<u32>) -> Seq<SpanView> {
    sizes.map_values(|size: u32| SpanView { size, subsamples: None })
}

/// Samples that keep the subsample ranges of their senc entries.
pub open spec fn entry_spans(entries: Seq<SencEntryView>, sizes: Seq<u32>) -> Seq<SpanView> {
    Seq::new(
        entries.len(),
        |i: int|
            SpanView { size: size_at(sizes, i) as u32, subsamples: entries[i].subsamples },
    )
}

/// Copies subsample ranges.
fn copy_ranges(subsamples: &Option<Vec<SubsampleEntry>>) -> (out: Option<Vec<SubsampleEntry>>)
    ensures
        opt_ranges(out) == opt_ranges(*subsamples),
{
    match subsamples {
        None => None,
        Some(list) => {
            let mut copy: Vec<SubsampleEntry> = Vec::new();
            let mut i: usize = 0;
            while i < list.len()
                invariant
                    i <= list.len(),
                    copy@ == list@.subrange(0, i as int),
                decreases list.len() - i,
            {
                copy.push(list[i]);
                i = i + 1;
                assert(copy@ =~= list@.subrange(0, i as int));
            }
            assert(copy@ =~= list@);
            Some(copy)
        },
    }
}

/// Samples that are encrypted as a whole.
fn make_whole_spans(sizes: &Vec<u32>) -> (spans: Vec<SampleSpan>)
    ensures
        spans_view(spans@) == whole_spans(sizes@),
{
    let mut spans: Vec<SampleSpan> = Vec::new();
    let mut i: usize = 0;
    while i < sizes.len()
        invariant
            i <= sizes.len(),
            spans_view(spans@) == whole_spans(sizes@.subrange(0, i as int)),
        decreases sizes.len() - i,
    {
        let ghost before = spans@;
        let span: SampleSpan = SampleSpan { size: sizes[i], subsamples: None };
        let ghost view = span@;
        spans.push(span);
        i = i + 1;
        assert(spans_view(spans@) =~= spans_view(before).push(view));
        assert(whole_spans(sizes@.subrange(0, i as int)) =~= whole_spans(
            sizes@.subrange(0, i - 1),
        ).push(view));
    }
    assert(sizes@.subrange(0, sizes@.len() as int) =~= sizes@);
    spans
}

/// Samples that keep the subsample ranges of their senc entries.
fn make_entry_spans(entries: &Vec<SencEntry>, sizes: &Vec<u32>) -> (spans: Vec<SampleSpan>)
    ensures
        spans_view(spans@) == entry_spans(cmaf::senc_entries_view(entries@), sizes@),
{
    let ghost views = cmaf::senc_entries_view(entries@);
    let mut spans: Vec<SampleSpan> = Vec::new();
    let mut i: usize = 0;
    while i < entries.len()
        invariant
            i <= entries.len(),
            views == cmaf::senc_entries_view(entries@),
            spans_view(spans@) == entry_spans(views.subrange(0, i as int), sizes@),
        decreases entries.len() - i,
    {
        let size: u32 = if i < sizes.len() {
            sizes[i]
        } else {
            0
        };
        let span: SampleSpan = SampleSpan { size, subsamples: copy_ranges(&entries[i].subsamples) };
        let ghost before = spans@;
        let ghost view = span@;
        assert(views[i as int] == entries@[i as int]@);
        spans.push(span);
        i = i + 1;
        assert(spans_view(spans@) =~= spans_view(before).push(view));
        assert(entry_spans(views.subrange(0, i as int), sizes@) =~= entry_spans(
            views.subrange(0, i - 1),
            sizes@,
        ).push(view));
    }
    assert(views.subrange(0, views.len() as int) =~= views);
    spans
}

/// The mdat payload with the samples from `i` on encrypted, and the senc entries: `got` and
/// `made` hold what comes of the samples before.
pub open spec fn encrypt_from(
    c: CryptorView,
    segment: u32,
    spans: Seq<SpanView>,
    data: Seq<u8>,
    i: int,
    got: Seq<u8>,
    made: Seq<SencEntryView>,
) -> Result<(Seq<u8>, Seq<SencEntryView>), ErrorView>
    decreases spans.len() - i,
{
    let at = got.len();
    if i < 0 || i >= spans.len() {
        Ok((got + data.subrange(at as int, data.len() as int), made))
    } else if at + spans[i].size > data.len() {
        Err(beyond_mdat(i as nat, at, spans[i].size as nat, data.len()))
    } else {
        let iv = c.fresh_iv(segment, i as u32);
        match c.crypted(
            true,
            iv,
            data.subrange(at as int, at + spans[i].size),
            pairs_of(spans[i].subsamples),
        ) {
            Err(e) => Err(e),
            Ok(x) => encrypt_from(
                c,
                segment,
                spans,
                data,
                i + 1,
                got + x,
                made.push(SencEntryView { iv, subsamples: spans[i].subsamples }),
            ),
        }
    }
}

/// The content of a pair of payload and senc entries.
pub open spec fn coded_outcome(r: Result<(Vec<u8>, Vec<SencEntry>), EdgepackError>) -> Result<
    (Seq<u8>, Seq<SencEntryView>),
    ErrorView,
> {
    match r {
        Ok(p) => Ok((p.0@, cmaf::senc_entries_view(p.1@))),
        Err(e) => Err(e@),
    }
}

/// Where sample `n` starts.
pub open spec fn span_start(spans: Seq<SpanView>, n: nat) -> nat
    decreases n,
{
    if n == 0 {
        0
    } else {
        span_start(spans, (n - 1) as nat) + spans[n - 1].size as nat
    }
}

/// The sizes of a list of samples.
pub open spec fn span_sizes(spans: Seq<SpanView>) -> Seq<u32> {
    spans.map_values(|s: SpanView| s.size)
}

/// Sample `j` of a payload.
pub open spec fn sample_at(spans: Seq<SpanView>, data: Seq<u8>, j: int) -> Seq<u8> {
    data.subrange(
        span_start(spans, j as nat) as int,
        span_start(spans, j as nat) + spans[j].size,
    )
}

/// Whether decrypting sample `j` of `out` gives back that of `data`.
pub open spec fn sample_restored(
    c: CryptorView,
    segment: u32,
    spans: Seq<SpanView>,
    data: Seq<u8>,
    out: Seq<u8>,
    j: int,
) -> bool {
    c.crypted(
        false,
        c.fresh_iv(segment, j as u32),
        sample_at(spans, out, j),
        pairs_of(spans[j].subsamples),
    ) == Ok::<Seq<u8>, ErrorView>(sample_at(spans, data, j))
}

/// The senc entries for a list of samples.
pub open spec fn fresh_entries(c: CryptorView, segment: u32, spans: Seq<SpanView>) -> Seq<
    SencEntryView,
> {
    Seq::new(
        spans.len(),
        |i: int|
            SencEntryView {
                iv: c.fresh_iv(segment, i as u32),
                subsamples: spans[i].subsamples,
            },
    )
}

proof fn lemma_span_start_grows(spans: Seq<SpanView>, m: nat, n: nat)
    requires
        m <= n,
    ensures
        span_start(spans, m) <= span_start(spans, n),
    decreases n,
{
    if m < n {
        lemma_span_start_grows(spans, m, (n - 1) as nat);
    }
}

/// Decrypting sample after sample gives the payload back when each sample does.
proof fn lemma_samples_restored(
    c: CryptorView,
    segment: u32,
    spans: Seq<SpanView>,
    data: Seq<u8>,
    out: Seq<u8>,
    constant_iv: Option<Seq<u8>>,
    i: nat,
)
    requires
        c.scheme.encrypts(),
        i <= spans.len(),
        span_start(spans, spans.len()) <= data.len(),
        out.len() == data.len(),
        forall|j: int|
            0 <= j < spans.len() ==> #[trigger] sample_restored(c, segment, spans, data, out, j),
        out.subrange(span_start(spans, spans.len()) as int, out.len() as int) == data.subrange(
            span_start(spans, spans.len()) as int,
            data.len() as int,
        ),
    ensures
        decrypt_from(
            c,
            constant_iv,
            fresh_entries(c, segment, spans),
            span_sizes(spans),
            out,
            i as int,
            data.subrange(0, span_start(spans, i) as int),
        ) == Ok::<Seq<u8>, ErrorView>(data),
    decreases spans.len() - i,
{
    lemma_span_start_grows(spans, i, spans.len());
    let got = data.subrange(0, span_start(spans, i) as int);
    if i == spans.len() {
        assert(got + out.subrange(got.len() as int, out.len() as int) =~= data);
    } else {
        lemma_span_start_grows(spans, i + 1, spans.len());
        assert(sample_restored(c, segment, spans, data, out, i as int));
        let iv = c.fresh_iv(segment, i as u32);
        assert(iv.len() == 8 || iv.len() == 16);
        if c.scheme is Cbcs {
            assert(padded_iv(iv) =~= iv);
        }
        assert(got + sample_at(spans, data, i as int) =~= data.subrange(
            0,
            span_start(spans, i + 1) as int,
        ));
        lemma_samples_restored(c, segment, spans, data, out, constant_iv, i + 1);
    }
}

/// Encrypts the samples of an mdat payload. Decrypting the payload with the new senc entries
/// gives it back.
#[verifier::loop_isolation(false)]
fn encrypt_samples(c: &SampleCryptor, segment: u32, spans: &Vec<SampleSpan>, data: &[u8]) -> (r:
    Result<(Vec<u8>, Vec<SencEntry>), EdgepackError>)
    requires
        c.scheme.encrypts(),
    ensures
        coded_outcome(r) == encrypt_from(
            c@,
            segment,
            spans_view(spans@),
            data@,
            0,
            Seq::empty(),
            Seq::empty(),
        ),
        r matches Ok(p) ==> cmaf::senc_entries_view(p.1@) == fresh_entries(
            c@,
            segment,
            spans_view(spans@),
        ) && p.0@.len() == data@.len() && (forall|constant_iv: Option<Seq<u8>>| #[trigger]
            decrypt_from(
                c@,
                constant_iv,
                cmaf::senc_entries_view(p.1@),
                span_sizes(spans_view(spans@)),
                p.0@,
                0,
                Seq::empty(),
            ) == Ok::<Seq<u8>, ErrorView>(data@)),
{
    let ghost views = spans_view(spans@);
    let mut out: Vec<u8> = Vec::new();
    let mut made: Vec<SencEntry> = Vec::new();
    let mut i: usize = 0;
    assert(cmaf::senc_entries_view(made@) =~= Seq::empty());
    while i < spans.len()
        invariant
            i <= spans.len(),
            out@.len() == span_start(views, i as nat),
            out@.len() <= data.len(),
            made@.len() == i,
            forall|j: int|
                0 <= j < i ==> #[trigger] cmaf::senc_entries_view(made@)[j] == fresh_entries(
                    c@,
                    segment,
                    views,
                )[j],
            forall|j: int|
                0 <= j < i ==> #[trigger] sample_restored(c@, segment, views, data@, out@, j),
            encrypt_from(c@, segment, views, data@, 0, Seq::empty(), Seq::empty()) == encrypt_from(
                c@,
                segment,
                views,
                data@,
                i as int,
                out@,
                cmaf::senc_entries_view(made@),
            ),
        decreases spans.len() - i,
    {
        assert(views[i as int] == spans@[i as int]@);
        let at: usize = out.len();
        let size: usize = spans[i].size as usize;
        if size > data.len() - at {
            return Err(beyond_mdat_error(i, at, size, data.len()));
        }
        let iv: Vec<u8> = c.generate_iv(segment, i as u32);
        let pairs: Option<Vec<(u32, u32)>> = subsample_pairs(&spans[i].subsamples);
        let subs: Option<&[(u32, u32)]> = match &pairs {
            Some(list) => Some(list.as_slice()),
            None => None,
        };
        let sample: Vec<u8> = match c.encrypt_sample(&data[at..at + size], iv.as_slice(), subs) {
            Ok(sample) => sample,
            Err(e) => return Err(e),
        };
        proof {
            sample_cryptor::crypted_keeps_length(
                c@,
                true,
                iv@,
                data@.subrange(at as int, at + size),
                pairs_of(views[i as int].subsamples),
            );
        }
        let ghost out_before = out@;
        bytes::put_bytes(&mut out, sample.as_slice());
        assert forall|j: int| 0 <= j < i + 1 implies #[trigger] sample_restored(
            c@,
            segment,
            views,
            data@,
            out@,
            j,
        ) by {
            lemma_span_start_grows(views, (j + 1) as nat, (i + 1) as nat);
            if j < i {
                assert(sample_restored(c@, segment, views, data@, out_before, j));
                lemma_span_start_grows(views, (j + 1) as nat, i as nat);
                assert(sample_at(views, out@, j) =~= sample_at(views, out_before, j));
            } else {
                assert(sample_at(views, out@, j) =~= sample@);
            }
        }
        let ghost made_before = made@;
        made.push(SencEntry { iv, subsamples: copy_ranges(&spans[i].subsamples) });
        assert(cmaf::senc_entries_view(made@) =~= cmaf::senc_entries_view(made_before).push(
            SencEntryView {
                iv: c@.fresh_iv(segment, i as u32),
                subsamples: views[i as int].subsamples,
            },
        ));
        i = i + 1;
    }
    let at: usize = out.len();
    let ghost out_before = out@;
    bytes::put_bytes(&mut out, &data[at..data.len()]);
    proof {
        assert(cmaf::senc_entries_view(made@) =~= fresh_entries(c@, segment, views));
        assert forall|j: int| 0 <= j < views.len() implies #[trigger] sample_restored(
            c@,
            segment,
            views,
            data@,
            out@,
            j,
        ) by {
            assert(sample_restored(c@, segment, views, data@, out_before, j));
            lemma_span_start_grows(views, (j + 1) as nat, views.len());
            assert(sample_at(views, out@, j) =~= sample_at(views, out_before, j));
        }
        assert(out@.subrange(at as int, out@.len() as int) =~= data@.subrange(
            at as int,
            data@.len() as int,
        ));
        assert forall|constant_iv: Option<Seq<u8>>| #[trigger]
            decrypt_from(
                c@,
                constant_iv,
                cmaf::senc_entries_view(made@),
                span_sizes(views),
                out@,
                0,
                Seq::empty(),
            ) == Ok::<Seq<u8>, ErrorView>(data@) by {
            lemma_samples_restored(c@, segment, views, data@, out@, constant_iv, 0);
            assert(data@.subrange(0, 0) =~= Seq::empty());
        }
    }
    Ok((out, made))
}

/// The bytes of a content key that has to be there and to be sixteen bytes long.
pub open spec fn key_of(key: Option<ContentKey>, missing: &str, length: &str) -> Result<
    Seq<u8>,
    ErrorView,
> {
    match key {
        None => rewrite_err(missing),
        Some(k) => if k.key@.len() != 16 {
            Err(ErrorView::Encryption(length@))
        } else {
            Ok(k.key@)
        },
    }
}

/// The bytes of a content key.
fn key_bytes(key: &Option<ContentKey>, missing: &str, length: &str) -> (r: Result<
    [u8; 16],
    EdgepackError,
>)
    ensures
        cmaf::outcome_view(r) == key_of(*key, missing, length),
{
    match key {
        None => Err(EdgepackError::segment_rewrite(missing)),
        Some(k) => {
            if k.key.len() != 16 {
                return Err(EdgepackError::encryption(length));
            }
            let bytes: [u8; 16] = bytes::read_16(k.key.as_slice(), 0);
            assert(bytes@ =~= k.key@);
            Ok(bytes)
        },
    }
}

/// The bytes of the source key.
pub open spec fn source_key_of(p: SegmentRewriteParams) -> Result<Seq<u8>, ErrorView> {
    key_of(
        p.source_key,
        "source_key required for encrypted source",
        "source key must be 16 bytes",
    )
}

/// The bytes of the target key.
pub open spec fn target_key_of(p: SegmentRewriteParams) -> Result<Seq<u8>, ErrorView> {
    key_of(
        p.target_key,
        "target_key required for encrypted target",
        "target key must be 16 bytes",
    )
}

/// A decrypted segment with what is needed to write it out again.
pub struct OpenedView {
    pub moof: Seq<u8>,
    pub senc: SencView,
    pub sizes: Seq<u32>,
    pub data: Seq<u8>,
}

/// A segment with its samples decrypted.
pub open spec fn opened(s: Seq<u8>, p: SegmentRewriteParams) -> Result<OpenedView, ErrorView> {
    match segment_parts(s) {
        Err(e) => Err(e),
        Ok((moof, mdat)) => match encryption_info(moof, p.source_iv_size) {
            Err(e) => Err(e),
            Ok((senc, trun)) => match sizes_from(trun.entries, 0, Seq::empty()) {
                Err(e) => Err(e),
                Ok(sizes) => match source_key_of(p) {
                    Err(e) => Err(e),
                    Ok(key) => match decrypt_from(
                        CryptorView { scheme: p.source_scheme, key, pattern: p.source_pattern },
                        cmaf::opt_bytes(p.constant_iv),
                        senc.entries,
                        sizes,
                        mdat,
                        0,
                        Seq::empty(),
                    ) {
                        Err(e) => Err(e),
                        Ok(data) => Ok(OpenedView { moof, senc, sizes, data }),
                    },
                },
            },
        },
    }
}

/// A segment from its moof box and its mdat payload.
pub open spec fn written(moof: Result<Seq<u8>, ErrorView>, data: Seq<u8>) -> Result<
    Seq<u8>,
    ErrorView,
> {
    match moof {
        Err(e) => Err(e),
        Ok(m) => Ok(m + cmaf::boxed(box_type::MDAT@, data)),
    }
}

/// An encrypted segment under the target scheme.
pub open spec fn reencrypted(s: Seq<u8>, p: SegmentRewriteParams) -> Result<Seq<u8>, ErrorView> {
    match opened(s, p) {
        Err(e) => Err(e),
        Ok(o) => match target_key_of(p) {
            Err(e) => Err(e),
            Ok(key) => match encrypt_from(
                CryptorView { scheme: p.target_scheme, key, pattern: p.target_pattern },
                p.segment_number,
                entry_spans(o.senc.entries, o.sizes),
                o.data,
                0,
                Seq::empty(),
                Seq::empty(),
            ) {
                Err(e) => Err(e),
                Ok((data, entries)) => written(
                    edited_moof(
                        o.moof,
                        EditView::Replace(entries, (o.senc.flags / 2) % 2 == 1),
                    ),
                    data,
                ),
            },
        },
    }
}

/// A clear segment under the target scheme.
pub open spec fn encrypted(s: Seq<u8>, p: SegmentRewriteParams) -> Result<Seq<u8>, ErrorView> {
    match segment_parts(s) {
        Err(e) => Err(e),
        Ok((moof, mdat)) => match run_info(moof) {
            Err(e) => Err(e),
            Ok(trun) => match sizes_from(trun.entries, 0, Seq::empty()) {
                Err(e) => Err(e),
                Ok(sizes) => match target_key_of(p) {
                    Err(e) => Err(e),
                    Ok(key) => match encrypt_from(
                        CryptorView { scheme: p.target_scheme, key, pattern: p.target_pattern },
                        p.segment_number,
                        whole_spans(sizes),
                        mdat,
                        0,
                        Seq::empty(),
                        Seq::empty(),
                    ) {
                        Err(e) => Err(e),
                        Ok((data, entries)) => written(
                            edited_moof(moof, EditView::Inject(entries)),
                            data,
                        ),
                    },
                },
            },
        },
    }
}

/// An encrypted segment in the clear.
pub open spec fn decrypted(s: Seq<u8>, p: SegmentRewriteParams) -> Result<Seq<u8>, ErrorView> {
    match opened(s, p) {
        Err(e) => Err(e),
        Ok(o) => written(edited_moof(o.moof, EditView::Strip), o.data),
    }
}

/// A segment between encryption schemes.
pub open spec fn rewritten(s: Seq<u8>, p: SegmentRewriteParams) -> Result<Seq<u8>, ErrorView> {
    if p.source_scheme.encrypts() {
        if p.target_scheme.encrypts() {
            reencrypted(s, p)
        } else {
            decrypted(s, p)
        }
    } else if p.target_scheme.encrypts() {
        encrypted(s, p)
    } else {
        Ok(s)
    }
}

// What comes of a segment that is encrypted and decrypted again.

/// The size of the IVs that a scheme makes.
pub open spec fn fresh_iv_size(scheme: EncryptionScheme) -> u8 {
    match scheme {
        EncryptionScheme::Cbcs => 16,
        EncryptionScheme::Cenc => 8,
        EncryptionScheme::Clear => 0,
    }
}

/// Whether rewriting with `q` decrypts what rewriting with `p` encrypted.
pub open spec fn undoes(q: SegmentRewriteParams, p: SegmentRewriteParams) -> bool {
    &&& !q.target_scheme.encrypts()
    &&& q.source_scheme == p.target_scheme
    &&& source_key_of(q) is Ok
    &&& source_key_of(q) == target_key_of(p)
    &&& p.target_scheme is Cbcs ==> q.source_pattern == p.target_pattern
    &&& q.source_iv_size == fresh_iv_size(p.target_scheme)
}

/// Whether the fragment of a segment and its track fragments are runs of whole boxes, and,
/// where the source is clear, no track fragment has a senc box.
pub open spec fn tidy(s: Seq<u8>, p: SegmentRewriteParams) -> bool {
    match segment_parts(s) {
        Ok((moof, _)) => fragment::well_boxed(moof) && (p.source_scheme.encrypts()
            || fragment::tracks_without(moof, box_type::SENC@)),
        Err(_) => true,
    }
}

/// The source segment in the clear: its fragment without encryption boxes and its samples.
pub open spec fn in_the_clear(s: Seq<u8>, p: SegmentRewriteParams) -> Result<Seq<u8>, ErrorView> {
    if p.source_scheme.encrypts() {
        decrypted(s, p)
    } else {
        match segment_parts(s) {
            Ok((moof, mdat)) => written(edited_moof(moof, EditView::Strip), mdat),
            Err(e) => Err(e),
        }
    }
}

/// Whether a segment with `data` for its samples has a fragment and sample data that their size
/// fields can measure, each of the two boxes by itself.
pub open spec fn boxes_fit(data: Seq<u8>, out: Seq<u8>) -> bool {
    data.len() + 8 <= u32::MAX && out.len() - (data.len() + 8) <= u32::MAX
}

/// Whether the segment `out`, made from `s`, has two such boxes. The sample data is as long as
/// that of `s`.
pub open spec fn sizes_fit(s: Seq<u8>, out: Seq<u8>) -> bool {
    segment_parts(s) matches Ok((_, mdat)) ==> boxes_fit(mdat, out)
}

/// Whether the segment `out`, made from `s` with `p`, decrypts to what `s` is in the clear.
pub open spec fn decrypts_back(s: Seq<u8>, p: SegmentRewriteParams, out: Seq<u8>) -> bool {
    tidy(s, p) && sizes_fit(s, out) ==> forall|q: SegmentRewriteParams|
        undoes(q, p) ==> #[trigger] rewritten(out, q) == in_the_clear(s, p)
}

proof fn lemma_last_of_two(headers: Seq<BoxHeader>)
    requires
        headers.len() == 2,
        headers[0].box_type@ == box_type::MOOF@,
        headers[1].box_type@ == box_type::MDAT@,
    ensures
        last_header(headers, 2, box_type::MOOF@) == Some(headers[0]),
        last_header(headers, 2, box_type::MDAT@) == Some(headers[1]),
{
    assert(box_type::MOOF@[1] != box_type::MDAT@[1]);
    assert(last_header(headers, 1, box_type::MOOF@) == Some(headers[0]));
}

/// A written segment is read back as the fragment and the samples that went in.
pub proof fn written_segment_reads_back(moof: Seq<u8>, data: Seq<u8>)
    requires
        moof.len() + 8 <= u32::MAX,
        data.len() + 8 <= u32::MAX,
    ensures
        segment_parts(
            cmaf::boxed(box_type::MOOF@, moof) + cmaf::boxed(box_type::MDAT@, data),
        ) == Ok::<(Seq<u8>, Seq<u8>), ErrorView>((moof, data)),
{
    let a = cmaf::boxed(box_type::MOOF@, moof);
    let b = cmaf::boxed(box_type::MDAT@, data);
    let s = a + b;
    let parts = seq![a, b];
    round_trip::boxed_reads_back(box_type::MOOF@, moof);
    round_trip::boxed_reads_back(box_type::MDAT@, data);
    assert(cmaf::joined(parts, 0) == Seq::<u8>::empty());
    assert(cmaf::joined(parts, 1) =~= a);
    assert(cmaf::joined(parts, 2) == s);
    assert(round_trip::made_of(s, parts));
    round_trip::run_hands_out_every_box(s, parts);
    let headers = cmaf::run(s).headers;
    assert(round_trip::stands_for(s, headers[0], parts[0]));
    assert(round_trip::stands_for(s, headers[1], parts[1]));
    lemma_last_of_two(headers);
}

proof fn lemma_same_sizes(
    c: CryptorView,
    constant_iv: Option<Seq<u8>>,
    entries: Seq<SencEntryView>,
    a: Seq<u32>,
    b: Seq<u32>,
    data: Seq<u8>,
    i: int,
    got: Seq<u8>,
)
    requires
        0 <= i,
        forall|k: int| 0 <= k < entries.len() ==> #[trigger] size_at(a, k) == size_at(b, k),
    ensures
        decrypt_from(c, constant_iv, entries, a, data, i, got) == decrypt_from(
            c,
            constant_iv,
            entries,
            b,
            data,
            i,
            got,
        ),
    decreases entries.len() - i,
{
    if i < entries.len() {
        let at = got.len();
        let size = size_at(a, i);
        assert(size == size_at(b, i));
        if at + size <= data.len() {
            if let Ok(iv) = iv_of(i as nat, entries[i], constant_iv) {
                if let Ok(x) = c.crypted(
                    false,
                    decryption_iv(c.scheme, iv),
                    data.subrange(at as int, (at + size) as int),
                    pairs_of(entries[i].subsamples),
                ) {
                    lemma_same_sizes(c, constant_iv, entries, a, b, data, i + 1, got + x);
                }
            }
        }
    }
}

proof fn lemma_opened(
    out: Seq<u8>,
    q: SegmentRewriteParams,
    payload: Seq<u8>,
    data: Seq<u8>,
    senc: SencView,
    trun: TrunView,
    sizes: Seq<u32>,
    plain: Seq<u8>,
)
    requires
        segment_parts(out) == Ok::<(Seq<u8>, Seq<u8>), ErrorView>((payload, data)),
        encryption_info(payload, q.source_iv_size) == Ok::<(SencView, TrunView), ErrorView>(
            (senc, trun),
        ),
        sizes_from(trun.entries, 0, Seq::empty()) == Ok::<Seq<u32>, ErrorView>(sizes),
        source_key_of(q) is Ok,
        decrypt_from(
            CryptorView {
                scheme: q.source_scheme,
                key: source_key_of(q)->Ok_0,
                pattern: q.source_pattern,
            },
            cmaf::opt_bytes(q.constant_iv),
            senc.entries,
            sizes,
            data,
            0,
            Seq::empty(),
        ) == Ok::<Seq<u8>, ErrorView>(plain),
    ensures
        decrypted(out, q) == written(edited_moof(payload, EditView::Strip), plain),
{
}

/// A segment with an edited fragment decrypts to its stripped fragment and the samples that
/// its payload decrypts to.
proof fn lemma_opens_again(
    moof: Seq<u8>,
    edit: EditView,
    old_iv: Option<u8>,
    trun: TrunView,
    sizes: Seq<u32>,
    data: Seq<u8>,
    plain: Seq<u8>,
    q: SegmentRewriteParams,
    out: Seq<u8>,
)
    requires
        fragment::well_boxed(moof),
        moof.len() <= u64::MAX,
        match edit {
            EditView::Replace(_, _) => old_iv is Some && encryption_info(moof, old_iv->0) is Ok
                && trun == (encryption_info(moof, old_iv->0)->Ok_0).1,
            EditView::Inject(_) => old_iv is None && run_info(moof) == Ok::<TrunView, ErrorView>(
                trun,
            ) && fragment::tracks_without(moof, box_type::SENC@),
            EditView::Strip => false,
        },
        fragment::readable(edit, q.source_iv_size),
        sizes_from(trun.entries, 0, Seq::empty()) == Ok::<Seq<u32>, ErrorView>(sizes),
        written(edited_moof(moof, edit), data) == Ok::<Seq<u8>, ErrorView>(out),
        boxes_fit(data, out),
        source_key_of(q) is Ok,
        decrypt_from(
            CryptorView {
                scheme: q.source_scheme,
                key: source_key_of(q)->Ok_0,
                pattern: q.source_pattern,
            },
            cmaf::opt_bytes(q.constant_iv),
            fragment::entries_of(edit).0,
            sizes,
            data,
            0,
            Seq::empty(),
        ) == Ok::<Seq<u8>, ErrorView>(plain),
    ensures
        decrypted(out, q) == written(edited_moof(moof, EditView::Strip), plain),
{
    let payload = moof_children(moof, 0, edit, Seq::empty())->Ok_0;
    let box_of_moof = cmaf::boxed(box_type::MOOF@, payload);
    let box_of_data = cmaf::boxed(box_type::MDAT@, data);
    assert(edited_moof(moof, edit) == Ok::<Seq<u8>, ErrorView>(box_of_moof));
    assert(out == box_of_moof + box_of_data);
    assert(box_of_moof.len() == payload.len() + 8);
    assert(box_of_data.len() == data.len() + 8);
    fragment::edited_fragment_reads_back(moof, edit, old_iv, q.source_iv_size, payload);
    written_segment_reads_back(payload, data);
    let (entries, with_subs) = fragment::entries_of(edit);
    lemma_opened(
        out,
        q,
        payload,
        data,
        fragment::senc_info(entries, with_subs),
        trun,
        sizes,
        plain,
    );
}

/// The cryptor that encrypts under the target scheme.
pub open spec fn target_cryptor(p: SegmentRewriteParams) -> CryptorView {
    CryptorView { scheme: p.target_scheme, key: target_key_of(p)->Ok_0, pattern: p.target_pattern }
}

/// Fresh entries can be read with IVs of the size that the scheme makes.
pub proof fn lemma_fresh_fit(
    c: CryptorView,
    segment: u32,
    spans: Seq<SpanView>,
    with_subs: bool,
    i: int,
)
    requires
        0 <= i < spans.len(),
        match spans[i].subsamples {
            Some(subs) => with_subs && subs.len() <= u16::MAX,
            None => !with_subs,
        },
    ensures
        round_trip::entry_fits(
            fresh_entries(c, segment, spans)[i],
            with_subs,
            fresh_iv_size(c.scheme),
        ),
{
}

/// The cryptor that decrypts from the source scheme.
spec fn source_cryptor(q: SegmentRewriteParams) -> CryptorView {
    CryptorView { scheme: q.source_scheme, key: source_key_of(q)->Ok_0, pattern: q.source_pattern }
}

proof fn lemma_undone(q: SegmentRewriteParams, p: SegmentRewriteParams, out: Seq<u8>)
    requires
        undoes(q, p),
        p.target_scheme.encrypts(),
    ensures
        rewritten(out, q) == decrypted(out, q),
        source_cryptor(q).scheme == target_cryptor(p).scheme,
        source_cryptor(q).key == target_cryptor(p).key,
        source_cryptor(q).scheme is Cbcs ==> source_cryptor(q).pattern
            == target_cryptor(p).pattern,
{
}

/// Two cryptors that differ in an idle pattern decrypt alike.
proof fn lemma_decrypt_alike(
    c: CryptorView,
    d: CryptorView,
    constant_iv: Option<Seq<u8>>,
    entries: Seq<SencEntryView>,
    sizes: Seq<u32>,
    data: Seq<u8>,
    i: int,
    got: Seq<u8>,
)
    requires
        c.scheme == d.scheme,
        c.key == d.key,
        c.scheme is Cbcs ==> c.pattern == d.pattern,
    ensures
        decrypt_from(c, constant_iv, entries, sizes, data, i, got) == decrypt_from(
            d,
            constant_iv,
            entries,
            sizes,
            data,
            i,
            got,
        ),
    decreases entries.len() - i,
{
    let at = got.len();
    let size = size_at(sizes, i);
    if 0 <= i < entries.len() && at + size <= data.len() {
        let part = data.subrange(at as int, (at + size) as int);
        let subs = pairs_of(entries[i].subsamples);
        if let Ok(iv) = iv_of(i as nat, entries[i], constant_iv) {
            sample_cryptor::only_cbcs_has_a_pattern(
                c,
                d,
                false,
                decryption_iv(c.scheme, iv),
                part,
                subs,
            );
            if let Ok(x) = c.crypted(false, decryption_iv(c.scheme, iv), part, subs) {
                lemma_decrypt_alike(c, d, constant_iv, entries, sizes, data, i + 1, got + x);
            }
        }
    }
}

proof fn lemma_clear_source(
    s: Seq<u8>,
    p: SegmentRewriteParams,
    moof: Seq<u8>,
    mdat: Seq<u8>,
)
    requires
        !p.source_scheme.encrypts(),
        segment_parts(s) == Ok::<(Seq<u8>, Seq<u8>), ErrorView>((moof, mdat)),
        tidy(s, p),
    ensures
        fragment::well_boxed(moof),
        fragment::tracks_without(moof, box_type::SENC@),
        in_the_clear(s, p) == written(edited_moof(moof, EditView::Strip), mdat),
{
}

proof fn lemma_encrypted_back(
    s: Seq<u8>,
    p: SegmentRewriteParams,
    moof: Seq<u8>,
    mdat: Seq<u8>,
    trun: TrunView,
    sizes: Seq<u32>,
    entries: Seq<SencEntryView>,
    data: Seq<u8>,
    out: Seq<u8>,
    q: SegmentRewriteParams,
)
    requires
        !p.source_scheme.encrypts(),
        p.target_scheme.encrypts(),
        segment_parts(s) == Ok::<(Seq<u8>, Seq<u8>), ErrorView>((moof, mdat)),
        moof.len() <= u64::MAX,
        run_info(moof) == Ok::<TrunView, ErrorView>(trun),
        sizes_from(trun.entries, 0, Seq::empty()) == Ok::<Seq<u32>, ErrorView>(sizes),
        entries == fresh_entries(target_cryptor(p), p.segment_number, whole_spans(sizes)),
        decrypt_from(
            target_cryptor(p),
            cmaf::opt_bytes(q.constant_iv),
            entries,
            sizes,
            data,
            0,
            Seq::empty(),
        ) == Ok::<Seq<u8>, ErrorView>(mdat),
        written(edited_moof(moof, EditView::Inject(entries)), data) == Ok::<Seq<u8>, ErrorView>(
            out,
        ),
        tidy(s, p),
        boxes_fit(data, out),
        undoes(q, p),
    ensures
        rewritten(out, q) == in_the_clear(s, p),
{
    let edit = EditView::Inject(entries);
    lemma_undone(q, p, out);
    lemma_clear_source(s, p, moof, mdat);
    assert forall|i: int| 0 <= i < entries.len() implies round_trip::entry_fits(
        #[trigger] entries[i],
        false,
        fresh_iv_size(p.target_scheme),
    ) by {
        lemma_fresh_fit(target_cryptor(p), p.segment_number, whole_spans(sizes), false, i);
    }
    assert(fragment::readable(edit, q.source_iv_size));
    lemma_decrypt_alike(
        source_cryptor(q),
        target_cryptor(p),
        cmaf::opt_bytes(q.constant_iv),
        entries,
        sizes,
        data,
        0,
        Seq::empty(),
    );
    lemma_opens_again(moof, edit, None, trun, sizes, data, mdat, q, out);
}

proof fn lemma_opened_source(s: Seq<u8>, p: SegmentRewriteParams, o: OpenedView)
    requires
        p.source_scheme.encrypts(),
        opened(s, p) == Ok::<OpenedView, ErrorView>(o),
        tidy(s, p),
    ensures
        fragment::well_boxed(o.moof),
        in_the_clear(s, p) == written(edited_moof(o.moof, EditView::Strip), o.data),
        encryption_info(o.moof, p.source_iv_size) matches Ok((senc, trun)) && senc == o.senc
            && sizes_from(trun.entries, 0, Seq::empty()) == Ok::<Seq<u32>, ErrorView>(o.sizes),
{
}

proof fn lemma_reencrypted_back(
    s: Seq<u8>,
    p: SegmentRewriteParams,
    o: OpenedView,
    entries: Seq<SencEntryView>,
    data: Seq<u8>,
    out: Seq<u8>,
    q: SegmentRewriteParams,
)
    requires
        p.source_scheme.encrypts(),
        p.target_scheme.encrypts(),
        opened(s, p) == Ok::<OpenedView, ErrorView>(o),
        o.moof.len() <= u64::MAX,
        entries == fresh_entries(
            target_cryptor(p),
            p.segment_number,
            entry_spans(o.senc.entries, o.sizes),
        ),
        decrypt_from(
            target_cryptor(p),
            cmaf::opt_bytes(q.constant_iv),
            entries,
            span_sizes(entry_spans(o.senc.entries, o.sizes)),
            data,
            0,
            Seq::empty(),
        ) == Ok::<Seq<u8>, ErrorView>(o.data),
        written(
            edited_moof(o.moof, EditView::Replace(entries, (o.senc.flags / 2) % 2 == 1)),
            data,
        ) == Ok::<Seq<u8>, ErrorView>(out),
        tidy(s, p),
        boxes_fit(data, out),
        undoes(q, p),
    ensures
        rewritten(out, q) == in_the_clear(s, p),
{
    let with_subs = (o.senc.flags / 2) % 2 == 1;
    let edit = EditView::Replace(entries, with_subs);
    let spans = entry_spans(o.senc.entries, o.sizes);
    lemma_undone(q, p, out);
    lemma_opened_source(s, p, o);
    fragment::read_entries_fit(o.moof, p.source_iv_size);
    assert forall|i: int| 0 <= i < entries.len() implies round_trip::entry_fits(
        #[trigger] entries[i],
        with_subs,
        fresh_iv_size(p.target_scheme),
    ) by {
        assert(round_trip::entry_fits(o.senc.entries[i], with_subs, p.source_iv_size));
        lemma_fresh_fit(target_cryptor(p), p.segment_number, spans, with_subs, i);
    }
    assert(fragment::readable(edit, q.source_iv_size));
    assert forall|k: int| 0 <= k < entries.len() implies #[trigger] size_at(o.sizes, k) == size_at(
        span_sizes(spans),
        k,
    ) by {
        assert(span_sizes(spans)[k] == size_at(o.sizes, k));
    }
    lemma_same_sizes(
        target_cryptor(p),
        cmaf::opt_bytes(q.constant_iv),
        entries,
        o.sizes,
        span_sizes(spans),
        data,
        0,
        Seq::empty(),
    );
    lemma_decrypt_alike(
        source_cryptor(q),
        target_cryptor(p),
        cmaf::opt_bytes(q.constant_iv),
        entries,
        o.sizes,
        data,
        0,
        Seq::empty(),
    );
    let trun = (encryption_info(o.moof, p.source_iv_size)->Ok_0).1;
    lemma_opens_again(
        o.moof,
        edit,
        Some(p.source_iv_size),
        trun,
        o.sizes,
        data,
        o.data,
        q,
        out,
    );
}

/// A clear segment that is encrypted and then decrypted comes back byte for byte: what
/// [`decrypts_back`] promises is the segment itself.
pub proof fn clear_segment_comes_back(moof: Seq<u8>, mdat: Seq<u8>, p: SegmentRewriteParams)
    requires
        !p.source_scheme.encrypts(),
        fragment::well_boxed(moof),
        fragment::compact_tracks(moof),
        fragment::tracks_without(moof, box_type::SENC@),
        fragment::tracks_without(moof, box_type::SAIZ@),
        fragment::tracks_without(moof, box_type::SAIO@),
        moof.len() + 8 <= u32::MAX,
        mdat.len() + 8 <= u32::MAX,
    ensures
        ({
            let s = cmaf::boxed(box_type::MOOF@, moof) + cmaf::boxed(box_type::MDAT@, mdat);
            tidy(s, p) && in_the_clear(s, p) == Ok::<Seq<u8>, ErrorView>(s)
        }),
{
    written_segment_reads_back(moof, mdat);
    fragment::clear_fragment_stays(moof);
}

/// A segment that is clear before and after is handed through.
pub proof fn clear_to_clear_passes_through(s: Seq<u8>, p: SegmentRewriteParams)
    requires
        !p.source_scheme.encrypts(),
        !p.target_scheme.encrypts(),
    ensures
        rewritten(s, p) == Ok::<Seq<u8>, ErrorView>(s),
{
}

proof fn lemma_encrypt_keeps_length(
    c: CryptorView,
    segment: u32,
    spans: Seq<SpanView>,
    data: Seq<u8>,
    i: int,
    got: Seq<u8>,
    made: Seq<SencEntryView>,
)
    requires
        0 <= i,
        got.len() <= data.len(),
    ensures
        encrypt_from(c, segment, spans, data, i, got, made) matches Ok((out, entries)) ==> out.len()
            == data.len() && (i <= spans.len() ==> entries.len() == made.len() + spans.len() - i),
    decreases spans.len() - i,
{
    if i < spans.len() && got.len() + spans[i].size <= data.len() {
        let iv = c.fresh_iv(segment, i as u32);
        let part = data.subrange(got.len() as int, got.len() + spans[i].size);
        if let Ok(x) = c.crypted(true, iv, part, pairs_of(spans[i].subsamples)) {
            sample_cryptor::crypted_keeps_length(
                c,
                true,
                iv,
                part,
                pairs_of(spans[i].subsamples),
            );
            lemma_encrypt_keeps_length(
                c,
                segment,
                spans,
                data,
                i + 1,
                got + x,
                made.push(SencEntryView { iv, subsamples: spans[i].subsamples }),
            );
        }
    }
}

proof fn lemma_decrypt_keeps_length(
    c: CryptorView,
    constant_iv: Option<Seq<u8>>,
    entries: Seq<SencEntryView>,
    sizes: Seq<u32>,
    data: Seq<u8>,
    i: int,
    got: Seq<u8>,
)
    requires
        0 <= i,
        got.len() <= data.len(),
    ensures
        decrypt_from(c, constant_iv, entries, sizes, data, i, got) matches Ok(out) ==> out.len()
            == data.len(),
    decreases entries.len() - i,
{
    let at = got.len();
    let size = size_at(sizes, i);
    if i < entries.len() && at + size <= data.len() {
        let part = data.subrange(at as int, (at + size) as int);
        let subs = pairs_of(entries[i].subsamples);
        if let Ok(iv) = iv_of(i as nat, entries[i], constant_iv) {
            if let Ok(x) = c.crypted(false, decryption_iv(c.scheme, iv), part, subs) {
                sample_cryptor::crypted_keeps_length(
                    c,
                    false,
                    decryption_iv(c.scheme, iv),
                    part,
                    subs,
                );
                lemma_decrypt_keeps_length(
                    c,
                    constant_iv,
                    entries,
                    sizes,
                    data,
                    i + 1,
                    got + x,
                );
            }
        }
    }
}

pub proof fn lemma_written_payload(
    moof: Seq<u8>,
    edit: EditView,
    data: Seq<u8>,
    out: Seq<u8>,
)
    requires
        written(edited_moof(moof, edit), data) == Ok::<Seq<u8>, ErrorView>(out),
        boxes_fit(data, out),
    ensures
        segment_parts(out) matches Ok((_, mdat)) && mdat == data,
{
    let payload = moof_children(moof, 0, edit, Seq::empty())->Ok_0;
    let box_of_moof = cmaf::boxed(box_type::MOOF@, payload);
    let box_of_data = cmaf::boxed(box_type::MDAT@, data);
    assert(edited_moof(moof, edit) == Ok::<Seq<u8>, ErrorView>(box_of_moof));
    assert(out == box_of_moof + box_of_data);
    assert(box_of_moof.len() == payload.len() + 8);
    assert(box_of_data.len() == data.len() + 8);
    written_segment_reads_back(payload, data);
}

/// A clear segment that was encrypted has one senc box in each track fragment, with an entry for
/// every sample of the track run, and as much sample data as before.
pub proof fn encrypted_tracks_have_one_senc(
    s: Seq<u8>,
    p: SegmentRewriteParams,
    moof: Seq<u8>,
    mdat: Seq<u8>,
    out: Seq<u8>,
)
    requires
        !p.source_scheme.encrypts(),
        p.target_scheme.encrypts(),
        tidy(s, p),
        segment_parts(s) == Ok::<(Seq<u8>, Seq<u8>), ErrorView>((moof, mdat)),
        moof.len() <= u64::MAX,
        rewritten(s, p) == Ok::<Seq<u8>, ErrorView>(out),
        sizes_fit(s, out),
    ensures
        segment_parts(out) matches Ok((m, data)) && data.len() == mdat.len()
            && fragment::one_senc_each(m) && (encryption_info(m, fresh_iv_size(p.target_scheme))
            matches Ok((senc, trun)) && senc.entries.len() == trun.entries.len()),
{
    let trun = run_info(moof)->Ok_0;
    let sizes = sizes_from(trun.entries, 0, Seq::empty())->Ok_0;
    let c = target_cryptor(p);
    let (data, entries) = encrypt_from(
        c,
        p.segment_number,
        whole_spans(sizes),
        mdat,
        0,
        Seq::empty(),
        Seq::empty(),
    )->Ok_0;
    lemma_encrypt_keeps_length(
        c,
        p.segment_number,
        whole_spans(sizes),
        mdat,
        0,
        Seq::empty(),
        Seq::empty(),
    );
    lemma_sizes_count(trun.entries, 0, Seq::empty());
    lemma_encrypted_with(
        c,
        p.segment_number,
        whole_spans(sizes),
        mdat,
        0,
        Seq::empty(),
        Seq::empty(),
    );
    lemma_injected_segment(moof, trun, entries, fresh_iv_size(p.target_scheme), data, out);
}

/// There is a size for every entry of a track run.
proof fn lemma_sizes_count(entries: Seq<TrunEntry>, i: int, got: Seq<u32>)
    requires
        0 <= i <= entries.len(),
    ensures
        sizes_from(entries, i, got) matches Ok(sizes) ==> sizes.len() == got.len() + entries.len()
            - i,
    decreases entries.len() - i,
{
    if i < entries.len() {
        if let Some(size) = entries[i].sample_size {
            lemma_sizes_count(entries, i + 1, got.push(size));
        }
    }
}

/// The entries of an encryption have fresh IVs and the subsamples of their spans.
pub proof fn lemma_encrypted_with(
    c: CryptorView,
    segment: u32,
    spans: Seq<SpanView>,
    data: Seq<u8>,
    i: int,
    got: Seq<u8>,
    made: Seq<SencEntryView>,
)
    requires
        0 <= i,
        c.scheme.encrypts(),
        forall|k: int|
            0 <= k < made.len() ==> (#[trigger] made[k]).iv.len() == fresh_iv_size(c.scheme)
                && made[k].subsamples is None,
        forall|k: int| 0 <= k < spans.len() ==> (#[trigger] spans[k]).subsamples is None,
    ensures
        encrypt_from(c, segment, spans, data, i, got, made) matches Ok((_, entries)) ==> forall|
            k: int,
        |
            0 <= k < entries.len() ==> (#[trigger] entries[k]).iv.len() == fresh_iv_size(c.scheme)
                && entries[k].subsamples is None,
    decreases spans.len() - i,
{
    if i < spans.len() && got.len() + spans[i].size <= data.len() {
        let iv = c.fresh_iv(segment, i as u32);
        let part = data.subrange(got.len() as int, got.len() + spans[i].size);
        assert(spans[i].subsamples is None);
        if let Ok(x) = c.crypted(true, iv, part, pairs_of(spans[i].subsamples)) {
            lemma_encrypted_with(
                c,
                segment,
                spans,
                data,
                i + 1,
                got + x,
                made.push(SencEntryView { iv, subsamples: spans[i].subsamples }),
            );
        }
    }
}

proof fn lemma_injected_segment(
    moof: Seq<u8>,
    trun: TrunView,
    entries: Seq<SencEntryView>,
    iv_size: u8,
    data: Seq<u8>,
    out: Seq<u8>,
)
    requires
        fragment::well_boxed(moof),
        moof.len() <= u64::MAX,
        fragment::tracks_without(moof, box_type::SENC@),
        run_info(moof) == Ok::<TrunView, ErrorView>(trun),
        1 <= iv_size,
        entries.len() == trun.entries.len(),
        forall|k: int|
            0 <= k < entries.len() ==> (#[trigger] entries[k]).iv.len() == iv_size
                && entries[k].subsamples is None,
        written(edited_moof(moof, EditView::Inject(entries)), data) == Ok::<Seq<u8>, ErrorView>(
            out,
        ),
        boxes_fit(data, out),
    ensures
        segment_parts(out) matches Ok((m, d)) && d == data && fragment::one_senc_each(m) && (
        encryption_info(m, iv_size) matches Ok((senc, run)) && senc.entries.len()
            == run.entries.len()),
{
    let edit = EditView::Inject(entries);
    let payload = moof_children(moof, 0, edit, Seq::empty())->Ok_0;
    let box_of_moof = cmaf::boxed(box_type::MOOF@, payload);
    let box_of_data = cmaf::boxed(box_type::MDAT@, data);
    assert(edited_moof(moof, edit) == Ok::<Seq<u8>, ErrorView>(box_of_moof));
    assert(out == box_of_moof + box_of_data);
    assert(box_of_moof.len() == payload.len() + 8);
    assert(box_of_data.len() == data.len() + 8);
    assert forall|k: int| 0 <= k < entries.len() implies round_trip::entry_fits(
        #[trigger] entries[k],
        false,
        iv_size,
    ) by {}
    assert(fragment::readable(edit, iv_size));
    written_segment_reads_back(payload, data);
    fragment::edited_fragment_reads_back(moof, edit, None, iv_size, payload);
    fragment::injected_tracks_have_one_senc(moof, entries, iv_size, payload);
}

/// Rewriting a segment never changes the length of its sample data.
pub proof fn rewriting_keeps_payload_length(s: Seq<u8>, p: SegmentRewriteParams)
    requires
        segment_parts(s) is Ok,
        rewritten(s, p) is Ok,
        p.source_scheme.encrypts() || p.target_scheme.encrypts() ==> sizes_fit(
            s,
            rewritten(s, p)->Ok_0,
        ),
    ensures
        segment_parts(rewritten(s, p)->Ok_0) matches Ok((_, data)) && data.len() == (
        segment_parts(s)->Ok_0).1.len(),
{
    let out = rewritten(s, p)->Ok_0;
    let (moof, mdat) = segment_parts(s)->Ok_0;
    if p.source_scheme.encrypts() {
        let o = opened(s, p)->Ok_0;
        let key = source_key_of(p)->Ok_0;
        lemma_decrypt_keeps_length(
            CryptorView { scheme: p.source_scheme, key, pattern: p.source_pattern },
            cmaf::opt_bytes(p.constant_iv),
            o.senc.entries,
            o.sizes,
            mdat,
            0,
            Seq::empty(),
        );
        if p.target_scheme.encrypts() {
            let spans = entry_spans(o.senc.entries, o.sizes);
            lemma_encrypt_keeps_length(
                target_cryptor(p),
                p.segment_number,
                spans,
                o.data,
                0,
                Seq::empty(),
                Seq::empty(),
            );
            let (data, entries) = encrypt_from(
                target_cryptor(p),
                p.segment_number,
                spans,
                o.data,
                0,
                Seq::empty(),
                Seq::empty(),
            )->Ok_0;
            lemma_written_payload(
                moof,
                EditView::Replace(entries, (o.senc.flags / 2) % 2 == 1),
                data,
                out,
            );
        } else {
            lemma_written_payload(moof, EditView::Strip, o.data, out);
        }
    } else if p.target_scheme.encrypts() {
        let sizes = sizes_from(run_info(moof)->Ok_0.entries, 0, Seq::empty())->Ok_0;
        let spans = whole_spans(sizes);
        lemma_encrypt_keeps_length(
            target_cryptor(p),
            p.segment_number,
            spans,
            mdat,
            0,
            Seq::empty(),
            Seq::empty(),
        );
        let (data, entries) = encrypt_from(
            target_cryptor(p),
            p.segment_number,
            spans,
            mdat,
            0,
            Seq::empty(),
            Seq::empty(),
        )->Ok_0;
        lemma_written_payload(moof, EditView::Inject(entries), data, out);
    }
}

/// A decrypted segment with what is needed to write it out again.
struct OpenedSegment<'a> {
    moof: &'a [u8],
    senc: SampleEncryptionBox,
    sizes: Vec<u32>,
    data: Vec<u8>,
}

impl<'a> View for OpenedSegment<'a> {
    type V = OpenedView;

    closed spec fn view(&self) -> OpenedView {
        OpenedView {
            moof: self.moof@,
            senc: self.senc@,
            sizes: self.sizes@,
            data: self.data@,
        }
    }
}

/// Reads an encrypted segment and decrypts its samples.
fn open_segment<'a>(segment_data: &'a [u8], params: &SegmentRewriteParams) -> (r: Result<
    OpenedSegment<'a>,
    EdgepackError,
>)
    ensures
        cmaf::outcome_view(r) == opened(segment_data@, *params),
{
    let (moof, mdat) = match find_moof_mdat(segment_data) {
        Ok(parts) => parts,
        Err(e) => return Err(e),
    };
    let (senc, trun) = match parse_moof_encryption_info(moof, params.source_iv_size) {
        Ok(info) => info,
        Err(e) => return Err(e),
    };
    let sizes: Vec<u32> = match extract_sample_sizes(&trun) {
        Ok(sizes) => sizes,
        Err(e) => return Err(e),
    };
    let key: [u8; 16] = match key_bytes(
        &params.source_key,
        "source_key required for encrypted source",
        "source key must be 16 bytes",
    ) {
        Ok(key) => key,
        Err(e) => return Err(e),
    };
    let decryptor: SampleCryptor = create_decryptor(
        params.source_scheme,
        key,
        params.source_pattern,
    );
    match decrypt_samples(&decryptor, &params.constant_iv, &senc.entries, &sizes, mdat) {
        Ok(data) => Ok(OpenedSegment { moof, senc, sizes, data }),
        Err(e) => Err(e),
    }
}

/// Rewrite an encrypted segment to a different encryption scheme.
pub fn rewrite_encrypted_to_encrypted(segment_data: &[u8], params: &SegmentRewriteParams) -> (r:
    Result<Vec<u8>, EdgepackError>)
    requires
        params.target_scheme.encrypts(),
    ensures
        cmaf::outcome_view(r) == reencrypted(segment_data@, *params),
        r matches Ok(out) ==> params.source_scheme.encrypts() ==> decrypts_back(
            segment_data@,
            *params,
            out@,
        ),
{
    let opened: OpenedSegment = match open_segment(segment_data, params) {
        Ok(opened) => opened,
        Err(e) => return Err(e),
    };
    let key: [u8; 16] = match key_bytes(
        &params.target_key,
        "target_key required for encrypted target",
        "target key must be 16 bytes",
    ) {
        Ok(key) => key,
        Err(e) => return Err(e),
    };
    let encryptor: SampleCryptor = create_encryptor(
        params.target_scheme,
        key,
        params.target_pattern,
    );
    let spans: Vec<SampleSpan> = make_entry_spans(&opened.senc.entries, &opened.sizes);
    let (data, entries) = match encrypt_samples(
        &encryptor,
        params.segment_number,
        &spans,
        opened.data.as_slice(),
    ) {
        Ok(coded) => coded,
        Err(e) => return Err(e),
    };
    let has_subsamples: bool = (opened.senc.flags / 2) % 2 == 1;
    match rebuild_moof(opened.moof, &entries, has_subsamples) {
        Ok(moof) => {
            let mut output: Vec<u8> = moof;
            bytes::put_bytes(&mut output, rebuild_mdat(data.as_slice()).as_slice());
            proof {
                lemma_decrypt_keeps_length(
                    source_cryptor(*params),
                    cmaf::opt_bytes(params.constant_iv),
                    opened@.senc.entries,
                    opened@.sizes,
                    (segment_parts(segment_data@)->Ok_0).1,
                    0,
                    Seq::empty(),
                );
                lemma_encrypt_keeps_length(
                    target_cryptor(*params),
                    params.segment_number,
                    spans_view(spans@),
                    opened@.data,
                    0,
                    Seq::empty(),
                    Seq::empty(),
                );
                if params.source_scheme.encrypts() && tidy(segment_data@, *params) && sizes_fit(
                    segment_data@,
                    output@,
                ) {
                    assert forall|q: SegmentRewriteParams| undoes(q, *params) implies #[trigger]
                        rewritten(output@, q) == in_the_clear(segment_data@, *params) by {
                        lemma_reencrypted_back(
                            segment_data@,
                            *params,
                            opened@,
                            cmaf::senc_entries_view(entries@),
                            data@,
                            output@,
                            q,
                        );
                    }
                }
            }
            Ok(output)
        },
        Err(e) => Err(e),
    }
}

/// Encrypt a clear segment (no senc expected) to produce an encrypted segment.
pub fn rewrite_clear_to_encrypted(segment_data: &[u8], params: &SegmentRewriteParams) -> (r: Result<
    Vec<u8>,
    EdgepackError,
>)
    requires
        params.target_scheme.encrypts(),
    ensures
        cmaf::outcome_view(r) == encrypted(segment_data@, *params),
        r matches Ok(out) ==> !params.source_scheme.encrypts() ==> decrypts_back(
            segment_data@,
            *params,
            out@,
        ),
{
    let (source, mdat) = match find_moof_mdat(segment_data) {
        Ok(parts) => parts,
        Err(e) => return Err(e),
    };
    let trun: TrackRunBox = match parse_moof_trun_only(source) {
        Ok(trun) => trun,
        Err(e) => return Err(e),
    };
    let sizes: Vec<u32> = match extract_sample_sizes(&trun) {
        Ok(sizes) => sizes,
        Err(e) => return Err(e),
    };
    let key: [u8; 16] = match key_bytes(
        &params.target_key,
        "target_key required for encrypted target",
        "target key must be 16 bytes",
    ) {
        Ok(key) => key,
        Err(e) => return Err(e),
    };
    let encryptor: SampleCryptor = create_encryptor(
        params.target_scheme,
        key,
        params.target_pattern,
    );
    let spans: Vec<SampleSpan> = make_whole_spans(&sizes);
    let (data, entries) = match encrypt_samples(
        &encryptor,
        params.segment_number,
        &spans,
        mdat,
    ) {
        Ok(coded) => coded,
        Err(e) => return Err(e),
    };
    match rebuild_moof_inject_senc(source, &entries) {
        Ok(moof) => {
            let mut output: Vec<u8> = moof;
            bytes::put_bytes(&mut output, rebuild_mdat(data.as_slice()).as_slice());
            proof {
                lemma_encrypt_keeps_length(
                    target_cryptor(*params),
                    params.segment_number,
                    spans_view(spans@),
                    mdat@,
                    0,
                    Seq::empty(),
                    Seq::empty(),
                );
                if !params.source_scheme.encrypts() && tidy(segment_data@, *params) && sizes_fit(
                    segment_data@,
                    output@,
                ) {
                    assert(span_sizes(spans_view(spans@)) =~= sizes@);
                    assert forall|q: SegmentRewriteParams| undoes(q, *params) implies #[trigger]
                        rewritten(output@, q) == in_the_clear(segment_data@, *params) by {
                        lemma_encrypted_back(
                            segment_data@,
                            *params,
                            source@,
                            mdat@,
                            trun@,
                            sizes@,
                            cmaf::senc_entries_view(entries@),
                            data@,
                            output@,
                            q,
                        );
                    }
                }
            }
            Ok(output)
        },
        Err(e) => Err(e),
    }
}

/// Decrypt an encrypted segment to produce a clear segment (strip senc).
pub fn rewrite_encrypted_to_clear(segment_data: &[u8], params: &SegmentRewriteParams) -> (r: Result<
    Vec<u8>,
    EdgepackError,
>)
    ensures
        cmaf::outcome_view(r) == decrypted(segment_data@, *params),
{
    let opened: OpenedSegment = match open_segment(segment_data, params) {
        Ok(opened) => opened,
        Err(e) => return Err(e),
    };
    match rebuild_moof_strip_senc(opened.moof) {
        Ok(moof) => {
            let mut output: Vec<u8> = moof;
            bytes::put_bytes(&mut output, rebuild_mdat(opened.data.as_slice()).as_slice());
            Ok(output)
        },
        Err(e) => Err(e),
    }
}

/// Rewrite a media segment (moof + mdat) between encryption schemes.
///
/// - encrypted to encrypted: decrypt and re-encrypt, rewrite senc
/// - clear to encrypted: encrypt, inject senc
/// - encrypted to clear: decrypt, strip senc
/// - clear to clear: pass-through
pub fn rewrite_segment(segment_data: &[u8], params: &SegmentRewriteParams) -> (r: Result<
    Vec<u8>,
    EdgepackError,
>)
    ensures
        cmaf::outcome_view(r) == rewritten(segment_data@, *params),
        r matches Ok(out) ==> params.target_scheme.encrypts() ==> decrypts_back(
            segment_data@,
            *params,
            out@,
        ),
{
    match (params.source_scheme.is_encrypted(), params.target_scheme.is_encrypted()) {
        (true, true) => rewrite_encrypted_to_encrypted(segment_data, params),
        (false, true) => rewrite_clear_to_encrypted(segment_data, params),
        (true, false) => rewrite_encrypted_to_clear(segment_data, params),
        (false, false) => Ok(bytes::to_vec(segment_data)),
    }
}

} // verus!
