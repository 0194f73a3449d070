//! ISO base media file format boxes: headers, iteration, and the boxes that carry
//! encryption, sample and event information.

use crate::bytes;
use crate::error::{EdgepackError, ErrorView};
use crate::media::box_type;
use crate::media::round_trip;
use crate::media::{same_code, FourCC};
use crate::text;
use vstd::prelude::*;

verus! {

/// An ISOBMFF box header.
#[derive(Debug, Clone, Copy)]
pub struct BoxHeader {
    /// Total size of the box including the header.
    pub size: u64,
    /// Four-character box type code.
    pub box_type: FourCC,
    /// Offset of this box within the input data.
    pub offset: u64,
    /// Size of the header itself (8 for normal, 16 for extended size).
    pub header_size: u8,
}

impl BoxHeader {
    /// Offset where the box payload (content) begins.
    pub fn payload_offset(&self) -> (at: u64)
        requires
            self.offset + self.header_size <= u64::MAX,
        ensures
            at == self.offset + self.header_size,
    {
        self.offset + self.header_size as u64
    }

    /// Size of the payload (content) in bytes.
    pub fn payload_size(&self) -> (n: u64)
        requires
            self.header_size <= self.size,
        ensures
            n == self.size - self.header_size,
    {
        self.size - self.header_size as u64
    }
}

/// A parse failure with a fixed message.
pub open spec fn parse_err<T>(message: &str) -> Result<T, ErrorView> {
    Err(ErrorView::MediaParse(message@))
}

/// The box header that starts at `off`. A size field of 1 announces a 64-bit size
/// after the type; a size field of 0 means that the box extends to the end.
pub open spec fn header_at(s: Seq<u8>, off: int) -> Result<BoxHeader, ErrorView> {
    if off + 8 > s.len() {
        parse_err("not enough data for box header")
    } else if bytes::be32(s, off) == 1 {
        if off + 16 > s.len() {
            parse_err("not enough data for extended box header")
        } else {
            Ok(
                BoxHeader {
                    size: bytes::be64(s, off + 8),
                    box_type: [s[off + 4], s[off + 5], s[off + 6], s[off + 7]],
                    offset: off as u64,
                    header_size: 16,
                },
            )
        }
    } else {
        Ok(
            BoxHeader {
                size: if bytes::be32(s, off) == 0 {
                    (s.len() - off) as u64
                } else {
                    bytes::be32(s, off) as u64
                },
                box_type: [s[off + 4], s[off + 5], s[off + 6], s[off + 7]],
                offset: off as u64,
                header_size: 8,
            },
        )
    }
}

/// A result with its error replaced by what the error says.
pub open spec fn outcome<T>(r: Result<T, EdgepackError>) -> Result<T, ErrorView> {
    match r {
        Ok(v) => Ok(v),
        Err(e) => Err(e@),
    }
}

/// A result with both sides replaced by their views.
pub open spec fn outcome_view<T: View>(r: Result<T, EdgepackError>) -> Result<T::V, ErrorView> {
    match r {
        Ok(v) => Ok(v@),
        Err(e) => Err(e@),
    }
}

/// Read a box header at the given offset.
pub fn read_box_header(data: &[u8], offset: u64) -> (r: Result<BoxHeader, EdgepackError>)
    ensures
        outcome(r) == header_at(data@, offset as int),
{
    if offset > data.len() as u64 || data.len() as u64 - offset < 8 {
        return Err(EdgepackError::media_parse("not enough data for box header"));
    }
    let off: usize = offset as usize;
    let size32: u32 = bytes::read_u32(data, off);
    let box_type: FourCC = [data[off + 4], data[off + 5], data[off + 6], data[off + 7]];
    if size32 == 1 {
        if data.len() - off < 16 {
            return Err(EdgepackError::media_parse("not enough data for extended box header"));
        }
        let size64: u64 = bytes::read_u64(data, off + 8);
        Ok(BoxHeader { size: size64, box_type, offset, header_size: 16 })
    } else if size32 == 0 {
        Ok(BoxHeader { size: (data.len() - off) as u64, box_type, offset, header_size: 8 })
    } else {
        Ok(BoxHeader { size: size32 as u64, box_type, offset, header_size: 8 })
    }
}


/// The headers met when stepping through a run of boxes, and the fault that ended
/// the run early, if there was one.
pub struct BoxRun {
    pub headers: Seq<BoxHeader>,
    pub fault: Option<ErrorView>,
}

/// Where the box after `h` starts: past its size, or at the end when the size is
/// zero or runs past the largest offset.
pub open spec fn next_start(len: nat, h: BoxHeader) -> int {
    if h.size == 0 || h.offset + h.size > u64::MAX {
        len as int
    } else {
        h.offset + h.size
    }
}

/// The run of boxes that starts at `off`.
pub open spec fn run_from(s: Seq<u8>, off: int) -> BoxRun
    decreases (if off < s.len() { s.len() - off } else { 0 }),
{
    if off < 0 || off >= s.len() {
        BoxRun { headers: Seq::empty(), fault: None }
    } else {
        match header_at(s, off) {
            Err(e) => BoxRun { headers: Seq::empty(), fault: Some(e) },
            Ok(h) => if next_start(s.len(), h) > off {
                let rest = run_from(s, next_start(s.len(), h));
                BoxRun { headers: seq![h] + rest.headers, fault: rest.fault }
            } else {
                BoxRun { headers: seq![h], fault: None }
            },
        }
    }
}

/// The run of top-level boxes in `s`.
pub open spec fn run(s: Seq<u8>) -> BoxRun {
    run_from(s, 0)
}

/// The items of a run in order: every header, then the fault.
pub open spec fn run_items(r: BoxRun) -> Seq<Result<BoxHeader, ErrorView>> {
    r.headers.map_values(|h: BoxHeader| Ok::<BoxHeader, ErrorView>(h)) + match r.fault {
        Some(e) => seq![Err::<BoxHeader, ErrorView>(e)],
        None => Seq::empty(),
    }
}

/// A fault with its error replaced by what the error says.
pub open spec fn fault_view(fault: Option<EdgepackError>) -> Option<ErrorView> {
    match fault {
        Some(e) => Some(e@),
        None => None,
    }
}

/// The bytes of the box `h`, header included, as far as the data goes.
pub open spec fn box_bytes(s: Seq<u8>, h: BoxHeader) -> Seq<u8> {
    bytes::clamped(s, h.offset as int, h.offset + h.size)
}

/// The payload of the box `h`, as far as the data goes.
pub open spec fn box_body(s: Seq<u8>, h: BoxHeader) -> Seq<u8> {
    bytes::clamped(s, h.offset + h.header_size, h.offset + h.size)
}

/// Steps over the boxes of a data buffer.
pub struct BoxIterator<'a> {
    data: &'a [u8],
    offset: u64,
}

impl<'a> BoxIterator<'a> {
    /// What the iterator has still to hand out.
    pub closed spec fn rest(&self) -> BoxRun {
        run_from(self.data@, self.offset as int)
    }

    /// The next box, or the fault that ends the run.
    pub fn next(&mut self) -> (item: Option<Result<BoxHeader, EdgepackError>>)
        ensures
            match item {
                Some(Ok(h)) => old(self).rest().headers.len() > 0 && h
                    == old(self).rest().headers[0] && final(self).rest().headers
                    == old(self).rest().headers.drop_first() && final(self).rest().fault
                    == old(self).rest().fault,
                Some(Err(e)) => old(self).rest().headers.len() == 0 && old(self).rest().fault
                    == Some(e@) && final(self).rest().headers.len() == 0 && final(self).rest().fault is None,
                None => old(self).rest().headers.len() == 0 && old(self).rest().fault is None
                    && final(self).rest() == old(self).rest(),
            },
    {
        let ghost before = self.rest();
        if self.offset >= self.data.len() as u64 {
            return None;
        }
        match read_box_header(self.data, self.offset) {
            Ok(header) => {
                if header.size == 0 || header.size > u64::MAX - self.offset {
                    self.offset = self.data.len() as u64;
                } else {
                    self.offset = self.offset + header.size;
                }
                assert(self.rest().headers =~= before.headers.drop_first());
                Some(Ok(header))
            },
            Err(e) => {
                self.offset = self.data.len() as u64;
                Some(Err(e))
            },
        }
    }

    /// All that is left, in order.
    pub fn collect(self) -> (items: Vec<Result<BoxHeader, EdgepackError>>)
        ensures
            items@.map_values(|r: Result<BoxHeader, EdgepackError>| outcome(r)) == run_items(
                self.rest(),
            ),
    {
        let mut iter: BoxIterator<'a> = self;
        let mut items: Vec<Result<BoxHeader, EdgepackError>> = Vec::new();
        let ghost whole = run_items(self.rest());
        let ghost view = |r: Result<BoxHeader, EdgepackError>| outcome(r);
        loop
            invariant
                view == (|r: Result<BoxHeader, EdgepackError>| outcome(r)),
                whole == items@.map_values(view) + run_items(iter.rest()),
            ensures
                whole == items@.map_values(view),
            decreases iter.rest().headers.len(), if iter.rest().fault is Some {
                1int
            } else {
                0int
            },
        {
            let ghost old_rest = iter.rest();
            let ghost old_items = items@;
            match iter.next() {
                None => {
                    assert(run_items(old_rest) =~= Seq::empty());
                    assert(whole =~= items@.map_values(view));
                    break;
                },
                Some(item) => {
                    let ghost seen = outcome(item);
                    items.push(item);
                    assert(items@.map_values(view) =~= old_items.map_values(view).push(seen));
                    assert(run_items(old_rest) =~= seq![seen] + run_items(iter.rest()));
                    assert(whole =~= items@.map_values(view) + run_items(iter.rest()));
                },
            }
        }
        items
    }
}

/// Iterate over top-level boxes in a data buffer.
pub fn iterate_boxes(data: &[u8]) -> (iter: BoxIterator<'_>)
    ensures
        iter.rest() == run(data@),
{
    BoxIterator { data, offset: 0 }
}

/// Every header of the run of boxes in `data`, and the fault that ended it.
pub fn scan_boxes(data: &[u8]) -> (scan: (Vec<BoxHeader>, Option<EdgepackError>))
    ensures
        scan.0@ == run(data@).headers,
        fault_view(scan.1) == run(data@).fault,
{
    let mut iter: BoxIterator<'_> = iterate_boxes(data);
    let mut headers: Vec<BoxHeader> = Vec::new();
    loop
        invariant
            run(data@).headers == headers@ + iter.rest().headers,
            run(data@).fault == iter.rest().fault,
        decreases iter.rest().headers.len(), if iter.rest().fault is Some {
            1int
        } else {
            0int
        },
    {
        match iter.next() {
            None => {
                assert(headers@ =~= run(data@).headers);
                return (headers, None);
            },
            Some(Err(e)) => {
                assert(headers@ =~= run(data@).headers);
                return (headers, Some(e));
            },
            Some(Ok(h)) => {
                let ghost before = headers@;
                headers.push(h);
                assert(headers@ + iter.rest().headers =~= run(data@).headers);
            },
        }
    }
}

/// The bytes of the box `h`, header included.
pub fn whole_box<'a>(data: &'a [u8], h: &BoxHeader) -> (part: &'a [u8])
    ensures
        part@ == box_bytes(data@, *h),
{
    slice_at(data, h.offset, 0, h.size)
}

/// Extract the payload bytes of a box.
pub fn box_payload<'a>(data: &'a [u8], header: &BoxHeader) -> (part: &'a [u8])
    ensures
        part@ == box_body(data@, *header),
{
    slice_at(data, header.offset, header.header_size, header.size)
}

/// The bytes from `offset + skip` to `offset + size`, as far as the data goes.
fn slice_at<'a>(data: &'a [u8], offset: u64, skip: u8, size: u64) -> (part: &'a [u8])
    ensures
        part@ == bytes::clamped(data@, offset + skip, offset + size),
{
    let len: u128 = data.len() as u128;
    let from: u128 = offset as u128 + skip as u128;
    let to: u128 = offset as u128 + size as u128;
    let end: u128 = if to > len {
        len
    } else {
        to
    };
    if from <= end {
        &data[from as usize..end as usize]
    } else {
        let none: &'a [u8] = &data[0..0];
        assert(none@ =~= Seq::<u8>::empty());
        none
    }
}

/// The first header at or after position `i` with the type `code`.
pub open spec fn find_header(headers: Seq<BoxHeader>, i: int, code: Seq<u8>) -> Option<BoxHeader>
    decreases headers.len() - i,
{
    if i < 0 || i >= headers.len() {
        None
    } else if headers[i].box_type@ == code {
        Some(headers[i])
    } else {
        find_header(headers, i + 1, code)
    }
}

/// The first child box of the type `code` in `s`.
pub open spec fn child(s: Seq<u8>, code: Seq<u8>) -> Option<BoxHeader> {
    find_header(run(s).headers, 0, code)
}

/// Find a child box of the given type within a container box's payload.
pub fn find_child_box(data: &[u8], box_type: &FourCC) -> (found: Option<BoxHeader>)
    ensures
        found == child(data@, box_type@),
{
    let (headers, _fault) = scan_boxes(data);
    let mut i: usize = 0;
    while i < headers.len()
        invariant
            i <= headers.len(),
            headers@ == run(data@).headers,
            child(data@, box_type@) == find_header(headers@, i as int, box_type@),
        decreases headers.len() - i,
    {
        let h: BoxHeader = headers[i];
        if same_code(&h.box_type, box_type) {
            return Some(h);
        }
        i = i + 1;
    }
    None
}


/// A parsed ISOBMFF box with its raw payload data.
#[derive(Debug, Clone)]
pub struct Mp4Box {
    pub header: BoxHeader,
    /// The raw payload bytes (excluding the header).
    pub payload: Vec<u8>,
}

/// Parsed protection scheme info from a sinf box.
#[derive(Debug, Clone)]
pub struct ProtectionSchemeInfo {
    /// Original codec FourCC from frma box (e.g., "avc1", "mp4a").
    pub original_format: FourCC,
    /// Scheme type from schm box (e.g., "cbcs", "cenc").
    pub scheme_type: FourCC,
    /// Scheme version from schm box.
    pub scheme_version: u32,
    /// Track encryption info from tenc box.
    pub tenc: TrackEncryptionBox,
}

/// The content of a [`ProtectionSchemeInfo`].
pub struct ProtectionView {
    pub original_format: Seq<u8>,
    pub scheme_type: Seq<u8>,
    pub scheme_version: u32,
    pub tenc: TencView,
}

impl View for ProtectionSchemeInfo {
    type V = ProtectionView;

    open spec fn view(&self) -> ProtectionView {
        ProtectionView {
            original_format: self.original_format@,
            scheme_type: self.scheme_type@,
            scheme_version: self.scheme_version,
            tenc: self.tenc@,
        }
    }
}

/// Parsed tenc (track encryption) box contents.
#[derive(Debug, Clone)]
pub struct TrackEncryptionBox {
    pub is_protected: u8,
    pub default_per_sample_iv_size: u8,
    pub default_kid: [u8; 16],
    /// CBCS-specific: number of 16-byte blocks to encrypt per pattern.
    pub default_crypt_byte_block: u8,
    /// CBCS-specific: number of 16-byte blocks to skip per pattern.
    pub default_skip_byte_block: u8,
    /// CBCS-specific: constant IV (if per_sample_iv_size == 0).
    pub default_constant_iv: Option<Vec<u8>>,
}

/// The content of a [`TrackEncryptionBox`].
pub struct TencView {
    pub is_protected: u8,
    pub default_per_sample_iv_size: u8,
    pub default_kid: Seq<u8>,
    pub default_crypt_byte_block: u8,
    pub default_skip_byte_block: u8,
    pub default_constant_iv: Option<Seq<u8>>,
}

/// The bytes behind an optional vector.
pub open spec fn opt_bytes(o: Option<Vec<u8>>) -> Option<Seq<u8>> {
    match o {
        Some(v) => Some(v@),
        None => None,
    }
}

impl View for TrackEncryptionBox {
    type V = TencView;

    open spec fn view(&self) -> TencView {
        TencView {
            is_protected: self.is_protected,
            default_per_sample_iv_size: self.default_per_sample_iv_size,
            default_kid: self.default_kid@,
            default_crypt_byte_block: self.default_crypt_byte_block,
            default_skip_byte_block: self.default_skip_byte_block,
            default_constant_iv: opt_bytes(self.default_constant_iv),
        }
    }
}

/// Parsed senc (sample encryption) box for a fragment.
#[derive(Debug, Clone)]
pub struct SampleEncryptionBox {
    pub flags: u32,
    pub sample_count: u32,
    pub entries: Vec<SencEntry>,
}

/// The content of a [`SampleEncryptionBox`].
pub struct SencView {
    pub flags: u32,
    pub sample_count: u32,
    pub entries: Seq<SencEntryView>,
}

impl View for SampleEncryptionBox {
    type V = SencView;

    open spec fn view(&self) -> SencView {
        SencView {
            flags: self.flags,
            sample_count: self.sample_count,
            entries: senc_entries_view(self.entries@),
        }
    }
}

/// A single sample's encryption info from the senc box.
#[derive(Debug, Clone)]
pub struct SencEntry {
    /// Per-sample IV. Length depends on defaultPerSampleIVSize from tenc.
    pub iv: Vec<u8>,
    /// Subsample encryption ranges, if present (flag 0x02).
    pub subsamples: Option<Vec<SubsampleEntry>>,
}

/// The content of a [`SencEntry`].
pub struct SencEntryView {
    pub iv: Seq<u8>,
    pub subsamples: Option<Seq<SubsampleEntry>>,
}

impl View for SencEntry {
    type V = SencEntryView;

    open spec fn view(&self) -> SencEntryView {
        SencEntryView {
            iv: self.iv@,
            subsamples: match self.subsamples {
                Some(subs) => Some(subs@),
                None => None,
            },
        }
    }
}

/// The contents of a list of senc entries.
pub open spec fn senc_entries_view(entries: Seq<SencEntry>) -> Seq<SencEntryView> {
    entries.map_values(|e: SencEntry| e@)
}

/// Clear/encrypted byte ranges within a sample.
#[derive(Debug, Clone, Copy)]
pub struct SubsampleEntry {
    pub clear_bytes: u16,
    pub encrypted_bytes: u32,
}

/// Parsed PSSH (Protection System Specific Header) box.
#[derive(Debug, Clone)]
pub struct PsshBox {
    pub version: u8,
    pub system_id: [u8; 16],
    /// Key IDs (only present in version 1).
    pub key_ids: Vec<[u8; 16]>,
    /// DRM system-specific data.
    pub data: Vec<u8>,
}

/// The content of a [`PsshBox`].
pub struct PsshView {
    pub version: u8,
    pub system_id: Seq<u8>,
    pub key_ids: Seq<Seq<u8>>,
    pub data: Seq<u8>,
}

/// The contents of a list of key identifiers.
pub open spec fn kids_view(kids: Seq<[u8; 16]>) -> Seq<Seq<u8>> {
    kids.map_values(|k: [u8; 16]| k@)
}

impl View for PsshBox {
    type V = PsshView;

    open spec fn view(&self) -> PsshView {
        PsshView {
            version: self.version,
            system_id: self.system_id@,
            key_ids: kids_view(self.key_ids@),
            data: self.data@,
        }
    }
}

/// Parsed trun (track fragment run) box.
#[derive(Debug, Clone)]
pub struct TrackRunBox {
    pub flags: u32,
    pub sample_count: u32,
    pub data_offset: Option<i32>,
    pub first_sample_flags: Option<u32>,
    pub entries: Vec<TrunEntry>,
}

/// The content of a [`TrackRunBox`].
pub struct TrunView {
    pub flags: u32,
    pub sample_count: u32,
    pub data_offset: Option<i32>,
    pub first_sample_flags: Option<u32>,
    pub entries: Seq<TrunEntry>,
}

impl View for TrackRunBox {
    type V = TrunView;

    open spec fn view(&self) -> TrunView {
        TrunView {
            flags: self.flags,
            sample_count: self.sample_count,
            data_offset: self.data_offset,
            first_sample_flags: self.first_sample_flags,
            entries: self.entries@,
        }
    }
}

/// The fields of one sample in a trun box.
#[derive(Debug, Clone, Copy)]
pub struct TrunEntry {
    pub sample_duration: Option<u32>,
    pub sample_size: Option<u32>,
    pub sample_flags: Option<u32>,
    pub sample_composition_time_offset: Option<i32>,
}

impl Default for TrunEntry {
    fn default() -> (e: TrunEntry)
        ensures
            e.sample_duration is None,
            e.sample_size is None,
            e.sample_flags is None,
            e.sample_composition_time_offset is None,
    {
        TrunEntry {
            sample_duration: None,
            sample_size: None,
            sample_flags: None,
            sample_composition_time_offset: None,
        }
    }
}

/// The track encryption info in a tenc payload: version and flags, the two pattern
/// nibbles, the protection flag, the IV size, the key identifier, and a constant IV
/// when samples carry none.
pub open spec fn tenc_of(s: Seq<u8>) -> Result<TencView, ErrorView> {
    if s.len() < 23 {
        parse_err("tenc box too small")
    } else {
        Ok(
            TencView {
                is_protected: s[5],
                default_per_sample_iv_size: s[6],
                default_kid: s.subrange(7, 23),
                default_crypt_byte_block: s[4] / 16,
                default_skip_byte_block: s[4] % 16,
                default_constant_iv: if s[6] == 0 && s.len() > 23 && s.len() >= 24 + s[23] {
                    Some(s.subrange(24, 24 + s[23]))
                } else {
                    None
                },
            },
        )
    }
}

/// Parse a tenc box from its payload bytes (after version/flags).
pub fn parse_tenc(payload: &[u8]) -> (r: Result<TrackEncryptionBox, EdgepackError>)
    ensures
        outcome_view(r) == tenc_of(payload@),
{
    if payload.len() < 23 {
        return Err(EdgepackError::media_parse("tenc box too small"));
    }
    let default_per_sample_iv_size: u8 = payload[6];
    let default_kid: [u8; 16] = bytes::read_16(payload, 7);
    let default_constant_iv: Option<Vec<u8>> = if default_per_sample_iv_size == 0 && payload.len()
        > 23 {
        let iv_size: usize = payload[23] as usize;
        if payload.len() - 24 >= iv_size {
            Some(bytes::to_vec(&payload[24..24 + iv_size]))
        } else {
            None
        }
    } else {
        None
    };
    Ok(
        TrackEncryptionBox {
            is_protected: payload[5],
            default_per_sample_iv_size,
            default_kid,
            default_crypt_byte_block: payload[4] / 16,
            default_skip_byte_block: payload[4] % 16,
            default_constant_iv,
        },
    )
}

/// Reads `n` more subsample ranges from `off` on, after those in `got`.
pub open spec fn senc_subsamples(
    s: Seq<u8>,
    off: int,
    n: nat,
    got: Seq<SubsampleEntry>,
) -> Result<(Seq<SubsampleEntry>, int), ErrorView>
    decreases n,
{
    if n == 0 {
        Ok((got, off))
    } else if off + 6 > s.len() {
        parse_err("senc: not enough data for subsample entry")
    } else {
        let sub = SubsampleEntry {
            clear_bytes: bytes::be16(s, off),
            encrypted_bytes: bytes::be32(s, off + 2),
        };
        senc_subsamples(s, off + 6, (n - 1) as nat, got.push(sub))
    }
}

/// Reads the senc entry at `off`.
pub open spec fn senc_entry(s: Seq<u8>, iv_size: nat, with_subs: bool, off: int) -> Result<
    (SencEntryView, int),
    ErrorView,
> {
    if off + iv_size > s.len() {
        parse_err("senc: not enough data for IV")
    } else {
        let iv = s.subrange(off, off + iv_size);
        let at = off + iv_size;
        if !with_subs {
            Ok((SencEntryView { iv, subsamples: None }, at))
        } else if at + 2 > s.len() {
            parse_err("senc: not enough data for subsample count")
        } else {
            match senc_subsamples(s, at + 2, bytes::be16(s, at) as nat, Seq::empty()) {
                Ok((subs, end)) => Ok((SencEntryView { iv, subsamples: Some(subs) }, end)),
                Err(e) => Err(e),
            }
        }
    }
}

/// Reads `n` more senc entries from `off` on, after those in `got`.
pub open spec fn senc_entries(
    s: Seq<u8>,
    iv_size: nat,
    with_subs: bool,
    off: int,
    n: nat,
    got: Seq<SencEntryView>,
) -> Result<Seq<SencEntryView>, ErrorView>
    decreases n,
{
    if n == 0 {
        Ok(got)
    } else {
        match senc_entry(s, iv_size, with_subs, off) {
            Ok((entry, end)) => senc_entries(
                s,
                iv_size,
                with_subs,
                end,
                (n - 1) as nat,
                got.push(entry),
            ),
            Err(e) => Err(e),
        }
    }
}

/// The sample encryption info in a senc payload.
pub open spec fn senc_of(s: Seq<u8>, iv_size: u8) -> Result<SencView, ErrorView> {
    if s.len() < 8 {
        parse_err("senc box too small")
    } else {
        let flags = bytes::be24(s, 1);
        let sample_count = bytes::be32(s, 4);
        match senc_entries(
            s,
            iv_size as nat,
            flags & 0x02 != 0,
            8,
            sample_count as nat,
            Seq::empty(),
        ) {
            Ok(entries) => Ok(SencView { flags, sample_count, entries }),
            Err(e) => Err(e),
        }
    }
}

/// Reads the subsample ranges that start at `off`.
fn parse_subsamples(data: &[u8], off: usize, count: u16) -> (r: Result<
    (Vec<SubsampleEntry>, usize),
    EdgepackError,
>)
    requires
        off <= data.len(),
    ensures
        match (r, senc_subsamples(data@, off as int, count as nat, Seq::empty())) {
            (Ok((subs, end)), Ok((want, want_end))) => subs@ == want && end == want_end && end
                <= data.len(),
            (Err(e), Err(want)) => e@ == want,
            _ => false,
        },
{
    let mut subs: Vec<SubsampleEntry> = Vec::new();
    let mut offset: usize = off;
    let mut i: u16 = 0;
    while i < count
        invariant
            i <= count,
            offset <= data.len(),
            senc_subsamples(data@, off as int, count as nat, Seq::empty()) == senc_subsamples(
                data@,
                offset as int,
                (count - i) as nat,
                subs@,
            ),
        decreases count - i,
    {
        if data.len() - offset < 6 {
            return Err(EdgepackError::media_parse("senc: not enough data for subsample entry"));
        }
        let clear_bytes: u16 = bytes::read_u16(data, offset);
        let encrypted_bytes: u32 = bytes::read_u32(data, offset + 2);
        subs.push(SubsampleEntry { clear_bytes, encrypted_bytes });
        offset = offset + 6;
        i = i + 1;
    }
    Ok((subs, offset))
}

/// Parse a senc box from its full box data (including version/flags).
#[verifier::loop_isolation(false)]
pub fn parse_senc(data: &[u8], per_sample_iv_size: u8) -> (r: Result<
    SampleEncryptionBox,
    EdgepackError,
>)
    ensures
        outcome_view(r) == senc_of(data@, per_sample_iv_size),
{
    if data.len() < 8 {
        return Err(EdgepackError::media_parse("senc box too small"));
    }
    let flags: u32 = bytes::read_u24(data, 1);
    let sample_count: u32 = bytes::read_u32(data, 4);
    let has_subsamples: bool = flags & 0x02 != 0;
    let iv_size: usize = per_sample_iv_size as usize;
    let mut entries: Vec<SencEntry> = Vec::new();
    let mut offset: usize = 8;
    let mut i: u32 = 0;
    assert(senc_entries_view(entries@) =~= Seq::empty());
    while i < sample_count
        invariant
            i <= sample_count,
            iv_size == per_sample_iv_size,
            offset <= data.len(),
            senc_entries(
                data@,
                iv_size as nat,
                has_subsamples,
                8,
                sample_count as nat,
                Seq::empty(),
            ) == senc_entries(
                data@,
                iv_size as nat,
                has_subsamples,
                offset as int,
                (sample_count - i) as nat,
                senc_entries_view(entries@),
            ),
        decreases sample_count - i,
    {
        if data.len() - offset < iv_size {
            return Err(EdgepackError::media_parse("senc: not enough data for IV"));
        }
        let iv: Vec<u8> = bytes::to_vec(&data[offset..offset + iv_size]);
        let mut end: usize = offset + iv_size;
        let subsamples: Option<Vec<SubsampleEntry>> = if has_subsamples {
            if data.len() - end < 2 {
                return Err(
                    EdgepackError::media_parse("senc: not enough data for subsample count"),
                );
            }
            let sub_count: u16 = bytes::read_u16(data, end);
            match parse_subsamples(data, end + 2, sub_count) {
                Ok((subs, after)) => {
                    end = after;
                    Some(subs)
                },
                Err(e) => {
                    return Err(e);
                },
            }
        } else {
            None
        };
        let ghost before = entries@;
        let entry: SencEntry = SencEntry { iv, subsamples };
        entries.push(entry);
        assert(senc_entries_view(entries@) =~= senc_entries_view(before).push(entry@));
        offset = end;
        i = i + 1;
    }
    Ok(SampleEncryptionBox { flags, sample_count, entries })
}

/// Reads `n` more key identifiers from `off` on, after those in `got`.
pub open spec fn pssh_kids(s: Seq<u8>, off: int, n: nat, got: Seq<Seq<u8>>) -> Result<
    (Seq<Seq<u8>>, int),
    ErrorView,
>
    decreases n,
{
    if n == 0 {
        Ok((got, off))
    } else if off + 16 > s.len() {
        parse_err("PSSH v1: not enough data for KID")
    } else {
        pssh_kids(s, off + 16, (n - 1) as nat, got.push(s.subrange(off, off + 16)))
    }
}

/// The protection system header in a PSSH payload. Data that is announced to be
/// longer than what is there is read as far as it goes.
pub open spec fn pssh_of(s: Seq<u8>) -> Result<PsshView, ErrorView> {
    if s.len() < 24 {
        parse_err("PSSH box too small")
    } else {
        let kids = if s[0] >= 1 {
            pssh_kids(s, 24, bytes::be32(s, 20) as nat, Seq::empty())
        } else {
            Ok((Seq::empty(), 20))
        };
        match kids {
            Err(e) => Err(e),
            Ok((key_ids, off)) => if off + 4 > s.len() {
                parse_err("PSSH: not enough data for data size")
            } else {
                Ok(
                    PsshView {
                        version: s[0],
                        system_id: s.subrange(4, 20),
                        key_ids,
                        data: bytes::clamped(s, off + 4, off + 4 + bytes::be32(s, off)),
                    },
                )
            },
        }
    }
}

/// Parse a PSSH box from its payload (after box header).
#[verifier::loop_isolation(false)]
pub fn parse_pssh(data: &[u8]) -> (r: Result<PsshBox, EdgepackError>)
    ensures
        outcome_view(r) == pssh_of(data@),
{
    if data.len() < 24 {
        return Err(EdgepackError::media_parse("PSSH box too small"));
    }
    let version: u8 = data[0];
    let system_id: [u8; 16] = bytes::read_16(data, 4);
    let mut offset: usize = 20;
    let mut key_ids: Vec<[u8; 16]> = Vec::new();
    assert(kids_view(key_ids@) =~= Seq::empty());
    if version >= 1 {
        let kid_count: u32 = bytes::read_u32(data, 20);
        offset = 24;
        let mut i: u32 = 0;
        while i < kid_count
            invariant
                i <= kid_count,
                24 <= offset <= data.len(),
                pssh_kids(data@, 24, kid_count as nat, Seq::empty()) == pssh_kids(
                    data@,
                    offset as int,
                    (kid_count - i) as nat,
                    kids_view(key_ids@),
                ),
            decreases kid_count - i,
        {
            if data.len() - offset < 16 {
                return Err(EdgepackError::media_parse("PSSH v1: not enough data for KID"));
            }
            let kid: [u8; 16] = bytes::read_16(data, offset);
            let ghost before = key_ids@;
            key_ids.push(kid);
            assert(kids_view(key_ids@) =~= kids_view(before).push(kid@));
            offset = offset + 16;
            i = i + 1;
        }
    }
    if data.len() - offset < 4 {
        return Err(EdgepackError::media_parse("PSSH: not enough data for data size"));
    }
    let data_size: usize = bytes::read_u32(data, offset) as usize;
    offset = offset + 4;
    let end: usize = if data.len() - offset >= data_size {
        offset + data_size
    } else {
        data.len()
    };
    let pssh_data: Vec<u8> = bytes::to_vec(&data[offset..end]);
    Ok(PsshBox { version, system_id, key_ids, data: pssh_data })
}

/// Reads an optional 32-bit field at `off`: its value and where the next one starts.
pub open spec fn trun_field(s: Seq<u8>, off: int, present: bool, message: &str) -> Result<
    (Option<u32>, int),
    ErrorView,
> {
    if !present {
        Ok((None, off))
    } else if off + 4 > s.len() {
        parse_err(message)
    } else {
        Ok((Some(bytes::be32(s, off)), off + 4))
    }
}

/// A raw 32-bit field read as a signed number.
pub open spec fn signed(v: Option<u32>) -> Option<i32> {
    match v {
        Some(x) => Some(x as i32),
        None => None,
    }
}

/// Reads the trun entry at `off`; the flags say which of its fields are there.
pub open spec fn trun_entry(s: Seq<u8>, flags: u32, off: int) -> Result<
    (TrunEntry, int),
    ErrorView,
> {
    match trun_field(
        s,
        off,
        flags & 0x0100 != 0,
        "trun: not enough data for sample_duration",
    ) {
        Err(e) => Err(e),
        Ok((duration, at1)) => match trun_field(
            s,
            at1,
            flags & 0x0200 != 0,
            "trun: not enough data for sample_size",
        ) {
            Err(e) => Err(e),
            Ok((size, at2)) => match trun_field(
                s,
                at2,
                flags & 0x0400 != 0,
                "trun: not enough data for sample_flags",
            ) {
                Err(e) => Err(e),
                Ok((sample_flags, at3)) => match trun_field(
                    s,
                    at3,
                    flags & 0x0800 != 0,
                    "trun: not enough data for composition_time_offset",
                ) {
                    Err(e) => Err(e),
                    Ok((cto, at4)) => Ok(
                        (
                            TrunEntry {
                                sample_duration: duration,
                                sample_size: size,
                                sample_flags,
                                sample_composition_time_offset: signed(cto),
                            },
                            at4,
                        ),
                    ),
                },
            },
        },
    }
}

/// Reads `n` more trun entries from `off` on, after those in `got`.
pub open spec fn trun_entries(
    s: Seq<u8>,
    flags: u32,
    off: int,
    n: nat,
    got: Seq<TrunEntry>,
) -> Result<Seq<TrunEntry>, ErrorView>
    decreases n,
{
    if n == 0 {
        Ok(got)
    } else {
        match trun_entry(s, flags, off) {
            Err(e) => Err(e),
            Ok((entry, end)) => trun_entries(s, flags, end, (n - 1) as nat, got.push(entry)),
        }
    }
}

/// The track fragment run in a trun payload.
pub open spec fn trun_of(s: Seq<u8>) -> Result<TrunView, ErrorView> {
    if s.len() < 8 {
        parse_err("trun box too small")
    } else {
        let flags = bytes::be24(s, 1);
        let sample_count = bytes::be32(s, 4);
        match trun_field(s, 8, flags & 0x0001 != 0, "trun: not enough data for data_offset") {
            Err(e) => Err(e),
            Ok((data_offset, at1)) => match trun_field(
                s,
                at1,
                flags & 0x0004 != 0,
                "trun: not enough data for first_sample_flags",
            ) {
                Err(e) => Err(e),
                Ok((first_sample_flags, at2)) => match trun_entries(
                    s,
                    flags,
                    at2,
                    sample_count as nat,
                    Seq::empty(),
                ) {
                    Err(e) => Err(e),
                    Ok(entries) => Ok(
                        TrunView {
                            flags,
                            sample_count,
                            data_offset: signed(data_offset),
                            first_sample_flags,
                            entries,
                        },
                    ),
                },
            },
        }
    }
}

/// Reads an optional 32-bit field.
fn read_trun_field(data: &[u8], off: usize, present: bool, message: &str) -> (r: Result<
    (Option<u32>, usize),
    EdgepackError,
>)
    requires
        off <= data.len(),
    ensures
        match (r, trun_field(data@, off as int, present, message)) {
            (Ok((v, end)), Ok((want, want_end))) => v == want && end == want_end && end
                <= data.len(),
            (Err(e), Err(want)) => e@ == want,
            _ => false,
        },
{
    if !present {
        Ok((None, off))
    } else if data.len() - off < 4 {
        Err(EdgepackError::media_parse(message))
    } else {
        Ok((Some(bytes::read_u32(data, off)), off + 4))
    }
}

fn to_signed(v: Option<u32>) -> (r: Option<i32>)
    ensures
        r == signed(v),
{
    match v {
        Some(x) => Some(x as i32),
        None => None,
    }
}

/// Reads one trun entry.
fn read_trun_entry(data: &[u8], flags: u32, off: usize) -> (r: Result<
    (TrunEntry, usize),
    EdgepackError,
>)
    requires
        off <= data.len(),
    ensures
        match (r, trun_entry(data@, flags, off as int)) {
            (Ok((v, end)), Ok((want, want_end))) => v == want && end == want_end && end
                <= data.len(),
            (Err(e), Err(want)) => e@ == want,
            _ => false,
        },
{
    let (sample_duration, at1) = match read_trun_field(
        data,
        off,
        flags & 0x0100 != 0,
        "trun: not enough data for sample_duration",
    ) {
        Ok(v) => v,
        Err(e) => {
            return Err(e);
        },
    };
    let (sample_size, at2) = match read_trun_field(
        data,
        at1,
        flags & 0x0200 != 0,
        "trun: not enough data for sample_size",
    ) {
        Ok(v) => v,
        Err(e) => {
            return Err(e);
        },
    };
    let (sample_flags, at3) = match read_trun_field(
        data,
        at2,
        flags & 0x0400 != 0,
        "trun: not enough data for sample_flags",
    ) {
        Ok(v) => v,
        Err(e) => {
            return Err(e);
        },
    };
    let (cto, at4) = match read_trun_field(
        data,
        at3,
        flags & 0x0800 != 0,
        "trun: not enough data for composition_time_offset",
    ) {
        Ok(v) => v,
        Err(e) => {
            return Err(e);
        },
    };
    let entry: TrunEntry = TrunEntry {
        sample_duration,
        sample_size,
        sample_flags,
        sample_composition_time_offset: to_signed(cto),
    };
    Ok((entry, at4))
}

/// Parse a trun box from its payload (after box header).
#[verifier::loop_isolation(false)]
pub fn parse_trun(data: &[u8]) -> (r: Result<TrackRunBox, EdgepackError>)
    ensures
        outcome_view(r) == trun_of(data@),
{
    if data.len() < 8 {
        return Err(EdgepackError::media_parse("trun box too small"));
    }
    let flags: u32 = bytes::read_u24(data, 1);
    let sample_count: u32 = bytes::read_u32(data, 4);
    let (data_offset, at1) = match read_trun_field(
        data,
        8,
        flags & 0x0001 != 0,
        "trun: not enough data for data_offset",
    ) {
        Ok(v) => v,
        Err(e) => {
            return Err(e);
        },
    };
    let (first_sample_flags, at2) = match read_trun_field(
        data,
        at1,
        flags & 0x0004 != 0,
        "trun: not enough data for first_sample_flags",
    ) {
        Ok(v) => v,
        Err(e) => {
            return Err(e);
        },
    };
    let mut entries: Vec<TrunEntry> = Vec::new();
    let mut offset: usize = at2;
    let mut i: u32 = 0;
    while i < sample_count
        invariant
            i <= sample_count,
            offset <= data.len(),
            trun_entries(data@, flags, at2 as int, sample_count as nat, Seq::empty())
                == trun_entries(
                data@,
                flags,
                offset as int,
                (sample_count - i) as nat,
                entries@,
            ),
        decreases sample_count - i,
    {
        match read_trun_entry(data, flags, offset) {
            Ok((entry, end)) => {
                entries.push(entry);
                offset = end;
            },
            Err(e) => {
                return Err(e);
            },
        }
        i = i + 1;
    }
    Ok(
        TrackRunBox {
            flags,
            sample_count,
            data_offset: to_signed(data_offset),
            first_sample_flags,
            entries,
        },
    )
}


/// A box: size, type, payload. The size field holds the low 32 bits of the size.
pub open spec fn boxed(code: Seq<u8>, payload: Seq<u8>) -> Seq<u8> {
    bytes::bytes32((payload.len() + 8) as u32) + code + payload
}

/// Write a box header (size + type) to the output buffer.
pub fn write_box_header(output: &mut Vec<u8>, size: u32, box_type: &FourCC)
    ensures
        final(output)@ == old(output)@ + bytes::bytes32(size) + box_type@,
{
    bytes::put_u32(output, size);
    bytes::put_bytes(output, box_type.as_slice());
}

/// Write a full box header (size + type + version + flags) to the output buffer.
pub fn write_full_box_header(
    output: &mut Vec<u8>,
    size: u32,
    box_type: &FourCC,
    version: u8,
    flags: u32,
)
    ensures
        final(output)@ == old(output)@ + bytes::bytes32(size) + box_type@ + seq![version]
            + bytes::bytes24(flags),
{
    write_box_header(output, size, box_type);
    let ghost before = output@;
    output.push(version);
    assert(output@ =~= before + seq![version]);
    bytes::put_u24(output, flags);
}

/// The size field of a box whose payload has `len` bytes.
pub fn box_size(len: usize) -> (size: u32)
    ensures
        size == (len + 8) as u32,
{
    (len as u128 + 8) as u32
}

/// Appends a box with the given type and payload.
pub fn put_box(output: &mut Vec<u8>, box_type: &FourCC, payload: &[u8])
    ensures
        final(output)@ == old(output)@ + boxed(box_type@, payload@),
{
    write_box_header(output, box_size(payload.len()), box_type);
    bytes::put_bytes(output, payload);
    assert(output@ =~= old(output)@ + boxed(box_type@, payload@));
}

/// A box with the given type and payload.
pub fn make_box(box_type: &FourCC, payload: &[u8]) -> (out: Vec<u8>)
    ensures
        out@ == boxed(box_type@, payload@),
{
    let mut out: Vec<u8> = Vec::new();
    put_box(&mut out, box_type, payload);
    assert(out@ =~= boxed(box_type@, payload@));
    out
}

/// A full box: a box whose payload starts with a version byte and 24 bits of flags.
pub open spec fn full_boxed(code: Seq<u8>, version: u8, flags: u32, payload: Seq<u8>) -> Seq<u8> {
    bytes::bytes32((payload.len() + 12) as u32) + code + seq![version] + bytes::bytes24(flags)
        + payload
}

/// A full box with the given type, version, flags and payload.
pub fn make_full_box(box_type: &FourCC, version: u8, flags: u32, payload: &[u8]) -> (out: Vec<u8>)
    ensures
        out@ == full_boxed(box_type@, version, flags, payload@),
{
    let mut out: Vec<u8> = Vec::new();
    write_full_box_header(
        &mut out,
        (payload.len() as u128 + 12) as u32,
        box_type,
        version,
        flags,
    );
    bytes::put_bytes(&mut out, payload);
    assert(out@ =~= full_boxed(box_type@, version, flags, payload@));
    out
}

/// The first `n` byte strings of `parts`, one after the other.
pub open spec fn joined(parts: Seq<Seq<u8>>, n: nat) -> Seq<u8>
    decreases n,
{
    if n == 0 {
        Seq::empty()
    } else {
        joined(parts, (n - 1) as nat) + parts[n - 1]
    }
}

/// The payload of a PSSH box: version, zero flags, system, key identifiers (from
/// version 1 on) and data.
pub open spec fn pssh_payload(p: PsshView) -> Seq<u8> {
    seq![p.version] + bytes::zeros(3) + p.system_id + (if p.version >= 1 {
        bytes::bytes32(p.key_ids.len() as u32) + joined(p.key_ids, p.key_ids.len())
    } else {
        Seq::empty()
    }) + bytes::bytes32(p.data.len() as u32) + p.data
}

/// Build a PSSH box from its components.
pub fn build_pssh_box(pssh: &PsshBox) -> (out: Vec<u8>)
    ensures
        out@ == boxed(box_type::PSSH@, pssh_payload(pssh@)),
{
    let mut inner: Vec<u8> = Vec::new();
    inner.push(pssh.version);
    bytes::put_zeros(&mut inner, 3);
    bytes::put_bytes(&mut inner, pssh.system_id.as_slice());
    let ghost head = seq![pssh.version] + bytes::zeros(3) + pssh.system_id@;
    assert(inner@ =~= head);
    if pssh.version >= 1 {
        bytes::put_u32(&mut inner, pssh.key_ids.len() as u32);
        let ghost start = inner@;
        let ghost kids = kids_view(pssh.key_ids@);
        let mut i: usize = 0;
        while i < pssh.key_ids.len()
            invariant
                i <= pssh.key_ids.len(),
                kids == kids_view(pssh.key_ids@),
                inner@ == start + joined(kids, i as nat),
            decreases pssh.key_ids.len() - i,
        {
            bytes::put_bytes(&mut inner, pssh.key_ids[i].as_slice());
            assert(kids[i as int] == pssh.key_ids@[i as int]@);
            i = i + 1;
            assert(inner@ =~= start + joined(kids, i as nat));
        }
        assert(inner@ =~= head + (bytes::bytes32(kids.len() as u32) + joined(kids, kids.len())));
    } else {
        assert(inner@ =~= head + Seq::<u8>::empty());
    }
    bytes::put_u32(&mut inner, pssh.data.len() as u32);
    bytes::put_bytes(&mut inner, pssh.data.as_slice());
    make_box(&box_type::PSSH, inner.as_slice())
}

/// The first `n` subsample ranges as bytes.
pub open spec fn subsample_bytes(subs: Seq<SubsampleEntry>, n: nat) -> Seq<u8>
    decreases n,
{
    if n == 0 {
        Seq::empty()
    } else {
        subsample_bytes(subs, (n - 1) as nat) + bytes::bytes16(subs[n - 1].clear_bytes)
            + bytes::bytes32(subs[n - 1].encrypted_bytes)
    }
}

/// A senc entry as bytes: its IV, then, when the box carries subsamples, their count
/// and ranges.
pub open spec fn senc_entry_bytes(e: SencEntryView, with_subs: bool) -> Seq<u8> {
    e.iv + (if with_subs {
        match e.subsamples {
            Some(subs) => bytes::bytes16(subs.len() as u16) + subsample_bytes(subs, subs.len()),
            None => bytes::bytes16(0),
        }
    } else {
        Seq::empty()
    })
}

/// The first `n` senc entries as bytes.
pub open spec fn senc_entries_bytes(entries: Seq<SencEntryView>, with_subs: bool, n: nat) -> Seq<u8>
    decreases n,
{
    if n == 0 {
        Seq::empty()
    } else {
        senc_entries_bytes(entries, with_subs, (n - 1) as nat) + senc_entry_bytes(
            entries[n - 1],
            with_subs,
        )
    }
}

/// The payload of a senc box.
pub open spec fn senc_payload(entries: Seq<SencEntryView>, with_subs: bool) -> Seq<u8> {
    seq![0u8] + bytes::bytes24(if with_subs { 2 } else { 0 }) + bytes::bytes32(
        entries.len() as u32,
    ) + senc_entries_bytes(entries, with_subs, entries.len())
}

/// Appends the bytes of one senc entry.
fn put_senc_entry(out: &mut Vec<u8>, entry: &SencEntry, use_subsamples: bool)
    ensures
        final(out)@ == old(out)@ + senc_entry_bytes(entry@, use_subsamples),
{
    let ghost start = out@;
    bytes::put_bytes(out, entry.iv.as_slice());
    if use_subsamples {
        match &entry.subsamples {
            Some(subs) => {
                bytes::put_u16(out, subs.len() as u16);
                let ghost mid = out@;
                let mut i: usize = 0;
                while i < subs.len()
                    invariant
                        i <= subs.len(),
                        out@ == mid + subsample_bytes(subs@, i as nat),
                    decreases subs.len() - i,
                {
                    bytes::put_u16(out, subs[i].clear_bytes);
                    bytes::put_u32(out, subs[i].encrypted_bytes);
                    i = i + 1;
                    assert(out@ =~= mid + subsample_bytes(subs@, i as nat));
                }
            },
            None => {
                bytes::put_u16(out, 0);
            },
        }
    }
    assert(out@ =~= start + senc_entry_bytes(entry@, use_subsamples));
}

/// Build a senc box from sample encryption entries.
pub fn build_senc_box(entries: &[SencEntry], use_subsamples: bool) -> (out: Vec<u8>)
    ensures
        out@ == boxed(
            box_type::SENC@,
            senc_payload(senc_entries_view(entries@), use_subsamples),
        ),
{
    let mut inner: Vec<u8> = Vec::new();
    let flags: u32 = if use_subsamples {
        2
    } else {
        0
    };
    inner.push(0u8);
    assert(inner@ =~= seq![0u8]);
    bytes::put_u24(&mut inner, flags);
    bytes::put_u32(&mut inner, entries.len() as u32);
    let ghost start = inner@;
    let ghost views = senc_entries_view(entries@);
    let mut i: usize = 0;
    while i < entries.len()
        invariant
            i <= entries.len(),
            views == senc_entries_view(entries@),
            inner@ == start + senc_entries_bytes(views, use_subsamples, i as nat),
        decreases entries.len() - i,
    {
        put_senc_entry(&mut inner, &entries[i], use_subsamples);
        assert(views[i as int] == entries@[i as int]@);
        i = i + 1;
        assert(inner@ =~= start + senc_entries_bytes(views, use_subsamples, i as nat));
    }
    make_box(&box_type::SENC, inner.as_slice())
}

/// Parsed emsg (event message) box.
///
/// Carries in-band event messages in media segments. Used for SCTE-35 ad markers,
/// ID3 metadata, and other timed events.
#[derive(Debug, Clone)]
pub struct EmsgBox {
    /// Box version (0 or 1).
    pub version: u8,
    /// Scheme ID URI identifying the event type.
    pub scheme_id_uri: String,
    /// Value string (scheme-specific).
    pub value: String,
    /// Timescale for presentation_time and event_duration.
    pub timescale: u32,
    /// Presentation time (v0: delta from segment decode time; v1: absolute).
    pub presentation_time: u64,
    /// Event duration in timescale units (0xFFFFFFFF = unknown).
    pub event_duration: u32,
    /// Event identifier.
    pub id: u32,
    /// Event-specific data (e.g., SCTE-35 splice_info_section binary).
    pub message_data: Vec<u8>,
}

/// The content of an [`EmsgBox`].
pub struct EmsgView {
    pub version: u8,
    pub scheme_id_uri: Seq<char>,
    pub value: Seq<char>,
    pub timescale: u32,
    pub presentation_time: u64,
    pub event_duration: u32,
    pub id: u32,
    pub message_data: Seq<u8>,
}

impl View for EmsgBox {
    type V = EmsgView;

    open spec fn view(&self) -> EmsgView {
        EmsgView {
            version: self.version,
            scheme_id_uri: self.scheme_id_uri@,
            value: self.value@,
            timescale: self.timescale,
            presentation_time: self.presentation_time,
            event_duration: self.event_duration,
            id: self.id,
            message_data: self.message_data@,
        }
    }
}

/// The position of the first zero byte at or after `i`, or the length.
pub open spec fn nul_at(s: Seq<u8>, i: int) -> int
    decreases s.len() - i,
{
    if i < 0 || i >= s.len() || s[i] == 0 {
        i
    } else {
        nul_at(s, i + 1)
    }
}

/// The zero-terminated text at `off` and the number of bytes it takes up, the zero
/// included.
pub open spec fn nul_string(s: Seq<u8>, off: int) -> Result<(Seq<char>, int), ErrorView> {
    let end = nul_at(s, off);
    if end >= s.len() {
        parse_err("emsg: NUL-terminated string extends beyond data")
    } else {
        Ok((text::lossy_text(s.subrange(off, end)), end - off + 1))
    }
}

/// The event message in an emsg payload. Version 0 has the two strings first,
/// version 1 has them after the fixed fields.
pub open spec fn emsg_of(s: Seq<u8>) -> Result<EmsgView, ErrorView> {
    if s.len() < 4 {
        parse_err("emsg box too small")
    } else if s[0] == 0 {
        match nul_string(s, 4) {
            Err(e) => Err(e),
            Ok((scheme_id_uri, n1)) => match nul_string(s, 4 + n1) {
                Err(e) => Err(e),
                Ok((value, n2)) => {
                    let at = 4 + n1 + n2;
                    if at + 16 > s.len() {
                        parse_err("emsg v0: not enough data for fixed fields")
                    } else {
                        Ok(
                            EmsgView {
                                version: 0,
                                scheme_id_uri,
                                value,
                                timescale: bytes::be32(s, at),
                                presentation_time: bytes::be32(s, at + 4) as u64,
                                event_duration: bytes::be32(s, at + 8),
                                id: bytes::be32(s, at + 12),
                                message_data: s.skip(at + 16),
                            },
                        )
                    }
                },
            },
        }
    } else if s[0] == 1 {
        if s.len() < 24 {
            parse_err("emsg v1: not enough data for fixed fields")
        } else {
            match nul_string(s, 24) {
                Err(e) => Err(e),
                Ok((scheme_id_uri, n1)) => match nul_string(s, 24 + n1) {
                    Err(e) => Err(e),
                    Ok((value, n2)) => Ok(
                        EmsgView {
                            version: 1,
                            scheme_id_uri,
                            value,
                            timescale: bytes::be32(s, 4),
                            presentation_time: bytes::be64(s, 8),
                            event_duration: bytes::be32(s, 16),
                            id: bytes::be32(s, 20),
                            message_data: s.skip(24 + n1 + n2),
                        },
                    ),
                },
            }
        }
    } else {
        Err(ErrorView::MediaParse("emsg: unsupported version "@ + text::dec(s[0] as nat)))
    }
}

/// Whether `found` is the text whose bytes stand at `off`, in front of a zero byte, if there
/// is such a text.
#[verifier::opaque]
pub open spec fn decoded(s: Seq<u8>, off: int, found: Seq<char>) -> bool {
    match nul_string(s, off) {
        Ok((_, n)) => forall|t: Seq<char>|
            s.subrange(off, off + n - 1) == #[trigger] utf8(t) ==> found == t,
        Err(_) => true,
    }
}

/// Read a NUL-terminated string from data starting at offset.
/// Returns (string, bytes_consumed_including_NUL).
pub fn read_nul_string(data: &[u8], offset: usize) -> (r: Result<(String, usize), EdgepackError>)
    requires
        offset <= data.len(),
    ensures
        match (r, nul_string(data@, offset as int)) {
            (Ok((found, n)), Ok((want, want_n))) => found@ == want && n == want_n && 1 <= n
                && offset + n <= data.len() && decoded(
                data@,
                offset as int,
                found@,
            ),
            (Err(e), Err(want)) => e@ == want,
            _ => false,
        },
{
    let mut end: usize = offset;
    while end < data.len() && data[end] != 0
        invariant
            offset <= end <= data.len(),
            nul_at(data@, offset as int) == nul_at(data@, end as int),
        decreases data.len() - end,
    {
        end = end + 1;
    }
    if end >= data.len() {
        return Err(EdgepackError::media_parse("emsg: NUL-terminated string extends beyond data"));
    }
    let found: String = text::utf8_lossy(&data[offset..end]);
    proof {
        reveal(decoded);
        assert forall|t: Seq<char>|
            data@.subrange(offset as int, end as int) == #[trigger] utf8(t) implies found@ == t by {
            vstd::utf8::encode_utf8_valid_utf8(t);
            vstd::utf8::encode_utf8_decode_utf8(t);
        }
    }
    Ok((found, end - offset + 1))
}

/// A message whose texts were decoded from the bytes of `e` is `e`.
proof fn lemma_emsg_decoded(s: Seq<u8>, m: EmsgView, e: EmsgView)
    requires
        s == emsg_payload(e),
        round_trip::texts_in_place(e),
        m == round_trip::emsg_read(e),
        ({
            let start: int = if m.version == 0 {
                4
            } else {
                24
            };
            &&& decoded(s, start, m.scheme_id_uri)
            &&& decoded(s, start + (nul_string(s, start)->Ok_0).1, m.value)
        }),
    ensures
        m == e,
{
    reveal(decoded);
    assert(m.scheme_id_uri == e.scheme_id_uri);
    assert(m.value == e.value);
}

/// Reads an emsg payload.
fn read_emsg(data: &[u8]) -> (r: Result<EmsgBox, EdgepackError>)
    ensures
        outcome_view(r) == emsg_of(data@),
        match r {
            Ok(m) => {
                let start: int = if m.version == 0 {
                    4
                } else {
                    24
                };
                &&& nul_string(data@, start) is Ok
                &&& decoded(data@, start, m.scheme_id_uri@)
                &&& decoded(data@, start + (nul_string(data@, start)->Ok_0).1, m.value@)
            },
            Err(_) => true,
        },
{
    if data.len() < 4 {
        return Err(EdgepackError::media_parse("emsg box too small"));
    }
    let version: u8 = data[0];
    if version == 0 {
        let (scheme_id_uri, n1) = match read_nul_string(data, 4) {
            Ok(v) => v,
            Err(e) => {
                return Err(e);
            },
        };
        let (value, n2) = match read_nul_string(data, 4 + n1) {
            Ok(v) => v,
            Err(e) => {
                return Err(e);
            },
        };
        let at: usize = 4 + n1 + n2;
        if data.len() - at < 16 {
            return Err(EdgepackError::media_parse("emsg v0: not enough data for fixed fields"));
        }
        let message_data: Vec<u8> = bytes::to_vec(&data[at + 16..data.len()]);
        Ok(
            EmsgBox {
                version: 0,
                scheme_id_uri,
                value,
                timescale: bytes::read_u32(data, at),
                presentation_time: bytes::read_u32(data, at + 4) as u64,
                event_duration: bytes::read_u32(data, at + 8),
                id: bytes::read_u32(data, at + 12),
                message_data,
            },
        )
    } else if version == 1 {
        if data.len() < 24 {
            return Err(EdgepackError::media_parse("emsg v1: not enough data for fixed fields"));
        }
        let (scheme_id_uri, n1) = match read_nul_string(data, 24) {
            Ok(v) => v,
            Err(e) => {
                return Err(e);
            },
        };
        let (value, n2) = match read_nul_string(data, 24 + n1) {
            Ok(v) => v,
            Err(e) => {
                return Err(e);
            },
        };
        let at: usize = 24 + n1 + n2;
        let message_data: Vec<u8> = bytes::to_vec(&data[at..data.len()]);
        Ok(
            EmsgBox {
                version: 1,
                scheme_id_uri,
                value,
                timescale: bytes::read_u32(data, 4),
                presentation_time: bytes::read_u64(data, 8),
                event_duration: bytes::read_u32(data, 16),
                id: bytes::read_u32(data, 20),
                message_data,
            },
        )
    } else {
        let mut message: String = "emsg: unsupported version ".to_owned();
        text::put_dec(&mut message, version as u64);
        Err(EdgepackError::MediaParse(message))
    }
}

/// Parse an emsg box from its full box payload (including version/flags).
///
/// Version 0 layout: version(1) + flags(3) + scheme_id_uri(NUL) + value(NUL) +
///   timescale(4) + presentation_time_delta(4) + event_duration(4) + id(4) + message_data
///
/// Version 1 layout: version(1) + flags(3) + timescale(4) + presentation_time(8) +
///   event_duration(4) + id(4) + scheme_id_uri(NUL) + value(NUL) + message_data
///
/// A message that was built by [`build_emsg_box`] is parsed back to what it was built from.
pub fn parse_emsg(data: &[u8]) -> (r: Result<EmsgBox, EdgepackError>)
    ensures
        outcome_view(r) == emsg_of(data@),
        forall|e: EmsgView|
            round_trip::emsg_fits(e) && data@ == #[trigger] emsg_payload(e) ==> outcome_view(r)
                == Ok::<EmsgView, ErrorView>(e),
{
    let r: Result<EmsgBox, EdgepackError> = read_emsg(data);
    proof {
        assert forall|e: EmsgView|
            round_trip::emsg_fits(e) && data@ == #[trigger] emsg_payload(e) implies outcome_view(r)
            == Ok::<EmsgView, ErrorView>(e) by {
            round_trip::emsg_round_trip(e);
            lemma_emsg_decoded(data@, r->Ok_0@, e);
        }
    }
    r
}

/// The UTF-8 bytes of a text.
pub open spec fn utf8(t: Seq<char>) -> Seq<u8> {
    vstd::utf8::encode_utf8(t)
}

/// The payload of an emsg box. Any version but 0 is written as version 1.
pub open spec fn emsg_payload(e: EmsgView) -> Seq<u8> {
    if e.version == 0 {
        seq![0u8] + bytes::zeros(3) + utf8(e.scheme_id_uri) + seq![0u8] + utf8(e.value) + seq![0u8]
            + bytes::bytes32(e.timescale) + bytes::bytes32(e.presentation_time as u32)
            + bytes::bytes32(e.event_duration) + bytes::bytes32(e.id) + e.message_data
    } else {
        seq![1u8] + bytes::zeros(3) + bytes::bytes32(e.timescale) + bytes::bytes64(
            e.presentation_time,
        ) + bytes::bytes32(e.event_duration) + bytes::bytes32(e.id) + utf8(e.scheme_id_uri) + seq![
            0u8,
        ] + utf8(e.value) + seq![0u8] + e.message_data
    }
}

/// Appends one byte.
pub fn put_byte(out: &mut Vec<u8>, b: u8)
    ensures
        final(out)@ == old(out)@ + seq![b],
{
    out.push(b);
    assert(out@ =~= old(out)@ + seq![b]);
}

/// Build an emsg box from its components.
pub fn build_emsg_box(emsg: &EmsgBox) -> (out: Vec<u8>)
    ensures
        out@ == boxed(box_type::EMSG@, emsg_payload(emsg@)),
{
    let mut inner: Vec<u8> = Vec::new();
    if emsg.version == 0 {
        inner.push(0u8);
        assert(inner@ =~= seq![0u8]);
        bytes::put_zeros(&mut inner, 3);
        bytes::put_bytes(&mut inner, emsg.scheme_id_uri.as_str().as_bytes());
        put_byte(&mut inner, 0);
        bytes::put_bytes(&mut inner, emsg.value.as_str().as_bytes());
        put_byte(&mut inner, 0);
        bytes::put_u32(&mut inner, emsg.timescale);
        bytes::put_u32(&mut inner, emsg.presentation_time as u32);
        bytes::put_u32(&mut inner, emsg.event_duration);
        bytes::put_u32(&mut inner, emsg.id);
        bytes::put_bytes(&mut inner, emsg.message_data.as_slice());
    } else {
        inner.push(1u8);
        assert(inner@ =~= seq![1u8]);
        bytes::put_zeros(&mut inner, 3);
        bytes::put_u32(&mut inner, emsg.timescale);
        bytes::put_u64(&mut inner, emsg.presentation_time);
        bytes::put_u32(&mut inner, emsg.event_duration);
        bytes::put_u32(&mut inner, emsg.id);
        bytes::put_bytes(&mut inner, emsg.scheme_id_uri.as_str().as_bytes());
        put_byte(&mut inner, 0);
        bytes::put_bytes(&mut inner, emsg.value.as_str().as_bytes());
        put_byte(&mut inner, 0);
        bytes::put_bytes(&mut inner, emsg.message_data.as_slice());
    }
    make_box(&box_type::EMSG, inner.as_slice())
}

/// A single reference entry from a parsed sidx (Segment Index) box.
#[derive(Debug, Clone, Copy)]
pub struct SidxReference {
    /// Whether this references another sidx (true) or a media subsegment (false).
    pub reference_type: bool,
    /// Size of the referenced data in bytes.
    pub referenced_size: u32,
    /// Duration of the subsegment in timescale units.
    pub subsegment_duration: u32,
    /// Whether this subsegment starts with a Stream Access Point (SAP).
    pub starts_with_sap: bool,
}

/// Parsed sidx (Segment Index) box result.
#[derive(Debug, Clone)]
pub struct SidxBox {
    /// Timescale for duration conversion.
    pub timescale: u32,
    /// Offset of the first referenced data relative to the end of this sidx box.
    pub first_offset: u64,
    /// Individual segment references.
    pub references: Vec<SidxReference>,
}

/// The content of a [`SidxBox`].
pub struct SidxView {
    pub timescale: u32,
    pub first_offset: u64,
    pub references: Seq<SidxReference>,
}

impl View for SidxBox {
    type V = SidxView;

    open spec fn view(&self) -> SidxView {
        SidxView {
            timescale: self.timescale,
            first_offset: self.first_offset,
            references: self.references@,
        }
    }
}

/// The twelve-byte reference at `off`: type bit and size, duration, access point bit.
pub open spec fn sidx_reference(s: Seq<u8>, off: int) -> SidxReference {
    SidxReference {
        reference_type: bytes::be32(s, off) >= 0x8000_0000,
        referenced_size: bytes::be32(s, off) % 0x8000_0000,
        subsegment_duration: bytes::be32(s, off + 4),
        starts_with_sap: bytes::be32(s, off + 8) >= 0x8000_0000,
    }
}

/// The segment index in a sidx payload.
pub open spec fn sidx_of(s: Seq<u8>) -> Result<SidxView, ErrorView> {
    if s.len() < 4 {
        parse_err("sidx payload too short")
    } else if s.len() < 8 {
        parse_err("sidx: truncated reference_ID")
    } else if s.len() < 12 {
        parse_err("sidx: truncated timescale")
    } else if s[0] == 0 && s.len() < 20 {
        parse_err("sidx: truncated v0 times")
    } else if s[0] != 0 && s.len() < 28 {
        parse_err("sidx: truncated v1 times")
    } else {
        let at: int = if s[0] == 0 { 20 } else { 28 };
        if at + 4 > s.len() {
            parse_err("sidx: truncated reference count")
        } else {
            let count = bytes::be16(s, at + 2);
            if at + 4 + count * 12 > s.len() {
                Err(
                    ErrorView::MediaParse(
                        "sidx: "@ + text::dec(count as nat) + " references need "@ + text::dec(
                            (count * 12) as nat,
                        ) + " bytes but only "@ + text::dec((s.len() - (at + 4)) as nat)
                            + " remain"@,
                    ),
                )
            } else {
                Ok(
                    SidxView {
                        timescale: bytes::be32(s, 8),
                        first_offset: if s[0] == 0 {
                            bytes::be32(s, 16) as u64
                        } else {
                            bytes::be64(s, 20)
                        },
                        references: Seq::new(
                            count as nat,
                            |i: int| sidx_reference(s, at + 4 + i * 12),
                        ),
                    },
                )
            }
        }
    }
}

/// The first sidx box among the headers from position `i` on.
pub open spec fn sidx_in(s: Seq<u8>, r: BoxRun, i: int) -> Result<SidxView, ErrorView>
    decreases r.headers.len() - i,
{
    if i < 0 || i >= r.headers.len() {
        match r.fault {
            Some(e) => Err(e),
            None => parse_err("no sidx box found in data"),
        }
    } else if r.headers[i].box_type@ == box_type::SIDX@ {
        if r.headers[i].offset + r.headers[i].size > s.len() {
            parse_err("sidx box extends beyond data")
        } else {
            sidx_of(box_body(s, r.headers[i]))
        }
    } else {
        sidx_in(s, r, i + 1)
    }
}

/// Parse a sidx (Segment Index) box payload.
///
/// The `data` should be the raw bytes of the sidx box (including the box header).
/// Returns the parsed sidx with subsegment references that can be used to
/// calculate byte ranges for individual segments.
pub fn parse_sidx(data: &[u8]) -> (r: Result<SidxBox, EdgepackError>)
    ensures
        outcome_view(r) == sidx_in(data@, run(data@), 0),
{
    let (headers, fault) = scan_boxes(data);
    let mut i: usize = 0;
    while i < headers.len()
        invariant
            i <= headers.len(),
            headers@ == run(data@).headers,
            sidx_in(data@, run(data@), 0) == sidx_in(data@, run(data@), i as int),
        decreases headers.len() - i,
    {
        let header: BoxHeader = headers[i];
        if same_code(&header.box_type, &box_type::SIDX) {
            if header.offset as u128 + header.size as u128 > data.len() as u128 {
                return Err(EdgepackError::media_parse("sidx box extends beyond data"));
            }
            return parse_sidx_payload(box_payload(data, &header));
        }
        i = i + 1;
    }
    match fault {
        Some(e) => Err(e),
        None => Err(EdgepackError::media_parse("no sidx box found in data")),
    }
}

/// Parse the payload of a sidx box (after box header).
#[verifier::loop_isolation(false)]
pub fn parse_sidx_payload(payload: &[u8]) -> (r: Result<SidxBox, EdgepackError>)
    ensures
        outcome_view(r) == sidx_of(payload@),
{
    if payload.len() < 4 {
        return Err(EdgepackError::media_parse("sidx payload too short"));
    }
    let version: u8 = payload[0];
    if payload.len() < 8 {
        return Err(EdgepackError::media_parse("sidx: truncated reference_ID"));
    }
    if payload.len() < 12 {
        return Err(EdgepackError::media_parse("sidx: truncated timescale"));
    }
    let timescale: u32 = bytes::read_u32(payload, 8);
    let mut offset: usize = 20;
    let first_offset: u64 = if version == 0 {
        if payload.len() < 20 {
            return Err(EdgepackError::media_parse("sidx: truncated v0 times"));
        }
        bytes::read_u32(payload, 16) as u64
    } else {
        if payload.len() < 28 {
            return Err(EdgepackError::media_parse("sidx: truncated v1 times"));
        }
        offset = 28;
        bytes::read_u64(payload, 20)
    };
    if payload.len() - offset < 4 {
        return Err(EdgepackError::media_parse("sidx: truncated reference count"));
    }
    let reference_count: u16 = bytes::read_u16(payload, offset + 2);
    offset = offset + 4;
    let needed: usize = reference_count as usize * 12;
    if payload.len() - offset < needed {
        let mut message: String = "sidx: ".to_owned();
        text::put_dec(&mut message, reference_count as u64);
        message.push_str(" references need ");
        text::put_dec(&mut message, needed as u64);
        message.push_str(" bytes but only ");
        text::put_dec(&mut message, (payload.len() - offset) as u64);
        message.push_str(" remain");
        return Err(EdgepackError::MediaParse(message));
    }
    let start: usize = offset;
    let mut references: Vec<SidxReference> = Vec::new();
    let mut i: u16 = 0;
    while i < reference_count
        invariant
            i <= reference_count,
            offset == start + i * 12,
            references@.len() == i,
            forall|k: int|
                0 <= k < i ==> references@[k] == sidx_reference(payload@, start + k * 12),
        decreases reference_count - i,
    {
        let word1: u32 = bytes::read_u32(payload, offset);
        let subsegment_duration: u32 = bytes::read_u32(payload, offset + 4);
        let word3: u32 = bytes::read_u32(payload, offset + 8);
        references.push(
            SidxReference {
                reference_type: word1 >= 0x8000_0000,
                referenced_size: word1 % 0x8000_0000,
                subsegment_duration,
                starts_with_sap: word3 >= 0x8000_0000,
            },
        );
        offset = offset + 12;
        i = i + 1;
    }
    assert(references@ =~= Seq::new(
        reference_count as nat,
        |k: int| sidx_reference(payload@, start + k * 12),
    ));
    Ok(SidxBox { timescale, first_offset, references })
}


/// Every header of a run starts inside the data, has eight or sixteen bytes, and
/// leaves a payload that is shorter than the data.
pub proof fn lemma_run_bounds(s: Seq<u8>, off: int)
    requires
        0 <= off,
    ensures
        forall|k: int|
            0 <= k < run_from(s, off).headers.len() ==> {
                let h = #[trigger] run_from(s, off).headers[k];
                &&& h.header_size == 8 || h.header_size == 16
                &&& box_body(s, h).len() < s.len()
                &&& s.len() <= u64::MAX ==> off <= h.offset && h.offset + h.header_size <= s.len()
            },
    decreases (if off < s.len() { s.len() - off } else { 0 }),
{
    if off < s.len() {
        if let Ok(h) = header_at(s, off) {
            if next_start(s.len(), h) > off {
                lemma_run_bounds(s, next_start(s.len(), h));
                let rest = run_from(s, next_start(s.len(), h)).headers;
                assert forall|k: int| 0 <= k < run_from(s, off).headers.len() implies {
                    let g = #[trigger] run_from(s, off).headers[k];
                    &&& g.header_size == 8 || g.header_size == 16
                    &&& box_body(s, g).len() < s.len()
                    &&& s.len() <= u64::MAX ==> off <= g.offset && g.offset + g.header_size
                        <= s.len()
                } by {
                    if k > 0 {
                        assert(run_from(s, off).headers[k] == rest[k - 1]);
                    }
                }
            }
        }
    }
}

} // verus!
