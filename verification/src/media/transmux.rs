//! MPEG-TS to CMAF transmuxer.
//!
//! Converts demuxed PES packets into CMAF-compatible fMP4 (ftyp+moov init + moof+mdat segments).

use crate::bytes;
use crate::error::{EdgepackError, ErrorView};
use crate::media::box_type;
use crate::media::cmaf;
use crate::media::ts;
use crate::media::ts::{DemuxedSegment, PesPacket, PesView, TsCodec};
use crate::media::FourCC;
use crate::text;
use vstd::prelude::*;

verus! {

/// Extracted H.264 video configuration from SPS/PPS NAL units.
#[derive(Debug, Clone)]
pub struct VideoConfig {
    pub codec: TsCodec,
    pub width: u16,
    pub height: u16,
    pub sps: Vec<u8>,
    pub pps: Vec<u8>,
    pub profile_idc: u8,
    pub level_idc: u8,
    pub codec_string: String,
}

/// The content of a [`VideoConfig`].
pub struct VideoView {
    pub codec: TsCodec,
    pub width: u16,
    pub height: u16,
    pub sps: Seq<u8>,
    pub pps: Seq<u8>,
    pub profile_idc: u8,
    pub level_idc: u8,
    pub codec_string: Seq<char>,
}

impl View for VideoConfig {
    type V = VideoView;

    open spec fn view(&self) -> VideoView {
        VideoView {
            codec: self.codec,
            width: self.width,
            height: self.height,
            sps: self.sps@,
            pps: self.pps@,
            profile_idc: self.profile_idc,
            level_idc: self.level_idc,
            codec_string: self.codec_string@,
        }
    }
}

/// Extracted AAC audio configuration from ADTS headers.
#[derive(Debug, Clone)]
pub struct AudioConfig {
    pub codec: TsCodec,
    pub sample_rate: u32,
    pub channel_count: u8,
    pub aac_profile: u8,
    pub codec_string: String,
}

/// The content of an [`AudioConfig`].
pub struct AudioView {
    pub codec: TsCodec,
    pub sample_rate: u32,
    pub channel_count: u8,
    pub aac_profile: u8,
    pub codec_string: Seq<char>,
}

impl View for AudioConfig {
    type V = AudioView;

    open spec fn view(&self) -> AudioView {
        AudioView {
            codec: self.codec,
            sample_rate: self.sample_rate,
            channel_count: self.channel_count,
            aac_profile: self.aac_profile,
            codec_string: self.codec_string@,
        }
    }
}

/// The length of the start code at `i`: three for 00 00 01, four for 00 00 00 01, zero
/// where there is none.
pub open spec fn start_code(s: Seq<u8>, i: int) -> int {
    if i + 2 < s.len() && s[i] == 0 && s[i + 1] == 0 && s[i + 2] == 1 {
        3
    } else if i + 3 < s.len() && s[i] == 0 && s[i + 1] == 0 && s[i + 2] == 0 && s[i + 3] == 1 {
        4
    } else {
        0
    }
}

/// The first position at or after `i` where a start code stands, or the length.
pub open spec fn next_code(s: Seq<u8>, i: int) -> int
    decreases s.len() - i,
{
    if i < 0 || i + 2 >= s.len() {
        s.len() as int
    } else if start_code(s, i) > 0 {
        i
    } else {
        next_code(s, i + 1)
    }
}

/// A start code is found at or after the position where the search begins, and fits.
pub proof fn lemma_next_code(s: Seq<u8>, i: int)
    requires
        0 <= i <= s.len(),
    ensures
        i <= next_code(s, i) <= s.len(),
        next_code(s, i) < s.len() ==> start_code(s, next_code(s, i)) >= 3 && next_code(s, i)
            + start_code(s, next_code(s, i)) <= s.len(),
    decreases s.len() - i,
{
    if i + 2 >= s.len() || start_code(s, i) > 0 {
    } else {
        lemma_next_code(s, i + 1);
    }
}

/// The NAL units from `i` on, after those in `got`: type and bytes of every non-empty
/// stretch between start codes.
pub open spec fn nals_from(s: Seq<u8>, i: int, got: Seq<(u8, Seq<u8>)>) -> Seq<(u8, Seq<u8>)>
    decreases s.len() - i,
{
    if i < 0 || i >= s.len() || next_code(s, i) >= s.len() {
        got
    } else {
        let start = next_code(s, i) + start_code(s, next_code(s, i));
        proof {
            lemma_next_code(s, i);
            lemma_next_code(s, start);
        }
        let end = next_code(s, start);
        if start < end {
            nals_from(s, end, got.push((s[start] % 32, s.subrange(start, end))))
        } else {
            nals_from(s, end, got)
        }
    }
}

/// The NAL units of an Annex B byte stream.
pub open spec fn nals_of(s: Seq<u8>) -> Seq<(u8, Seq<u8>)> {
    nals_from(s, 0, Seq::empty())
}

/// The contents of a list of NAL units.
pub open spec fn nals_view(nals: Seq<(u8, Vec<u8>)>) -> Seq<(u8, Seq<u8>)> {
    nals.map_values(|n: (u8, Vec<u8>)| (n.0, n.1@))
}

/// The length of the start code at `i`.
fn start_code_len(data: &[u8], i: usize) -> (n: usize)
    requires
        i + 2 < data.len(),
    ensures
        n == start_code(data@, i as int),
        n == 0 || (3 <= n <= 4 && i + n <= data.len()),
{
    if data[i] == 0x00 && data[i + 1] == 0x00 {
        if data[i + 2] == 0x01 {
            return 3;
        }
        if data.len() - i > 3 && data[i + 2] == 0x00 && data[i + 3] == 0x01 {
            return 4;
        }
    }
    0
}

/// The first position at or after `start` where a start code stands, or the length.
fn find_next_start_code_or_end(data: &[u8], start: usize) -> (found: (bool, usize))
    requires
        start <= data.len(),
    ensures
        found.1 == next_code(data@, start as int),
        found.0 == (found.1 < data.len()),
        start <= found.1 <= data.len(),
{
    proof {
        lemma_next_code(data@, start as int);
    }
    let mut i: usize = start;
    while data.len() >= 3 && i <= data.len() - 3
        invariant
            start <= i <= data.len(),
            next_code(data@, start as int) == next_code(data@, i as int),
        decreases data.len() - i,
    {
        if start_code_len(data, i) > 0 {
            return (true, i);
        }
        i = i + 1;
    }
    (false, data.len())
}

/// Where the bytes after the first start code at or after `start` begin.
fn find_start_code(data: &[u8], start: usize) -> (found: (bool, usize))
    requires
        start <= data.len(),
    ensures
        found.0 == (next_code(data@, start as int) < data.len()),
        found.0 ==> found.1 == next_code(data@, start as int) + start_code(
            data@,
            next_code(data@, start as int),
        ) && start + 3 <= found.1 <= data.len(),
        !found.0 ==> found.1 == data.len(),
{
    proof {
        lemma_next_code(data@, start as int);
    }
    let (found, at) = find_next_start_code_or_end(data, start);
    if found {
        (true, at + start_code_len(data, at))
    } else {
        (false, data.len())
    }
}

/// Extract H.264 NAL units from Annex B byte stream.
///
/// Returns `Vec<(nal_type, nal_data)>` where `nal_data` is the raw NAL unit
/// bytes (without the start code prefix).
pub fn extract_h264_nal_units(data: &[u8]) -> (nals: Vec<(u8, Vec<u8>)>)
    ensures
        nals_view(nals@) == nals_of(data@),
{
    let mut nals: Vec<(u8, Vec<u8>)> = Vec::new();
    let mut i: usize = 0;
    assert(nals_view(nals@) =~= Seq::empty());
    while i < data.len()
        invariant
            i <= data.len(),
            nals_of(data@) == nals_from(data@, i as int, nals_view(nals@)),
        decreases data.len() - i,
    {
        let (found, start) = find_start_code(data, i);
        if !found {
            return nals;
        }
        let (_next, end) = find_next_start_code_or_end(data, start);
        if start < end {
            let ghost before = nals@;
            let unit: Vec<u8> = bytes::to_vec(&data[start..end]);
            nals.push((data[start] % 32, unit));
            assert(nals_view(nals@) =~= nals_view(before).push(
                (data@[start as int] % 32, data@.subrange(start as int, end as int)),
            ));
        }
        i = end;
    }
    nals
}

/// Whether a NAL unit goes into the sample data: neither SPS nor PPS.
pub open spec fn in_sample(nal: Seq<u8>) -> bool {
    nal.len() > 0 && nal[0] % 32 != 7 && nal[0] % 32 != 8
}

/// The first `n` NAL units with four-byte length prefixes, without SPS and PPS.
pub open spec fn avcc_bytes(nals: Seq<(u8, Seq<u8>)>, n: nat) -> Seq<u8>
    decreases n,
{
    if n == 0 {
        Seq::empty()
    } else {
        let before = avcc_bytes(nals, (n - 1) as nat);
        let nal = nals[n - 1].1;
        if in_sample(nal) {
            before + bytes::bytes32(nal.len() as u32) + nal
        } else {
            before
        }
    }
}

/// An Annex B byte stream in AVCC format.
pub open spec fn avcc_of(s: Seq<u8>) -> Seq<u8> {
    avcc_bytes(nals_of(s), nals_of(s).len())
}

/// Convert Annex B byte stream to AVCC format (4-byte length-prefixed NAL units).
pub fn convert_annexb_to_avcc(data: &[u8]) -> (avcc: Vec<u8>)
    ensures
        avcc@ == avcc_of(data@),
{
    let nals: Vec<(u8, Vec<u8>)> = extract_h264_nal_units(data);
    let ghost views = nals_view(nals@);
    let mut avcc: Vec<u8> = Vec::new();
    let mut i: usize = 0;
    while i < nals.len()
        invariant
            i <= nals.len(),
            views == nals_view(nals@),
            avcc@ == avcc_bytes(views, i as nat),
        decreases nals.len() - i,
    {
        assert(views[i as int].1 == nals@[i as int].1@);
        let nal: &Vec<u8> = &nals[i].1;
        if nal.len() > 0 && nal[0] % 32 != 7 && nal[0] % 32 != 8 {
            bytes::put_u32(&mut avcc, nal.len() as u32);
            bytes::put_bytes(&mut avcc, nal.as_slice());
        }
        i = i + 1;
    }
    avcc
}

/// Whether one of the NAL units from `i` on is an IDR slice (type 5).
pub open spec fn idr_in(nals: Seq<(u8, Seq<u8>)>, i: int) -> bool
    decreases nals.len() - i,
{
    if i < 0 || i >= nals.len() {
        false
    } else {
        nals[i].0 == 5 || idr_in(nals, i + 1)
    }
}

/// Whether an Annex B byte stream holds an IDR slice.
#[verifier::loop_isolation(false)]
pub fn has_idr_nal(annexb_data: &[u8]) -> (yes: bool)
    ensures
        yes == idr_in(nals_of(annexb_data@), 0),
{
    let nals: Vec<(u8, Vec<u8>)> = extract_h264_nal_units(annexb_data);
    let ghost views = nals_view(nals@);
    let mut i: usize = 0;
    while i < nals.len()
        invariant
            i <= nals.len(),
            views == nals_view(nals@),
            idr_in(views, 0) == idr_in(views, i as int),
        decreases nals.len() - i,
    {
        assert(views[i as int].0 == nals@[i as int].0);
        if nals[i].0 == 5 {
            return true;
        }
        i = i + 1;
    }
    false
}

/// Bit `k` of a byte, counted from the most significant one.
pub open spec fn bit_of(b: u8, k: u8) -> u8 {
    (b >> ((7 - k) as u8)) & 1
}

/// The bit at position `p`; zero past the end.
pub open spec fn bit_at(s: Seq<u8>, p: int) -> u8 {
    if p / 8 >= s.len() {
        0
    } else {
        bit_of(s[p / 8], (p % 8) as u8)
    }
}

/// The position after the bit at `p`; reading stops at the end.
pub open spec fn bit_next(s: Seq<u8>, p: int) -> int {
    if p / 8 >= s.len() {
        p
    } else {
        p + 1
    }
}

/// The position after `n` more bits.
pub open spec fn skipped(s: Seq<u8>, p: int, n: nat) -> int
    decreases n,
{
    if n == 0 {
        p
    } else {
        skipped(s, bit_next(s, p), (n - 1) as nat)
    }
}

/// The number in the next `n` bits, after `v`, and the position after it.
pub open spec fn bits_at(s: Seq<u8>, p: int, n: nat, v: nat) -> (nat, int)
    decreases n,
{
    if n == 0 {
        (v, p)
    } else {
        bits_at(s, bit_next(s, p), (n - 1) as nat, v * 2 + bit_at(s, p) as nat)
    }
}

/// The number of zero bits before the next one bit, after `z` zeros; none after 31. Also
/// the position after what was read.
pub open spec fn zeros_at(s: Seq<u8>, p: int, z: nat) -> (Option<nat>, int)
    decreases 32 - z,
{
    if bit_at(s, p) != 0 {
        (Some(z), bit_next(s, p))
    } else if z + 1 > 31 {
        (None, bit_next(s, p))
    } else {
        zeros_at(s, bit_next(s, p), z + 1)
    }
}

pub open spec fn two_to(n: nat) -> nat
    decreases n,
{
    if n == 0 {
        1
    } else {
        2 * two_to((n - 1) as nat)
    }
}

/// The unsigned Exp-Golomb number at `p` and the position after it.
pub open spec fn golomb_at(s: Seq<u8>, p: int) -> (nat, int) {
    match zeros_at(s, p, 0) {
        (None, q) => (0, q),
        (Some(z), q) => if z == 0 {
            (0, q)
        } else {
            let (v, end) = bits_at(s, q, z, 0);
            ((two_to(z) - 1 + v) as nat, end)
        },
    }
}

/// The signed number that an Exp-Golomb code stands for.
pub open spec fn signed_golomb(code: nat) -> int {
    if code == 0 {
        0
    } else if code % 2 == 1 {
        (code + 1) as int / 2
    } else {
        -((code + 1) as int / 2)
    }
}

/// Minimal bitstream reader for exp-golomb parsing.
pub struct BitReader<'a> {
    data: &'a [u8],
    byte_offset: usize,
    bit_offset: u8,
}

impl<'a> BitReader<'a> {
    /// The bytes that are read.
    pub closed spec fn bytes(&self) -> Seq<u8> {
        self.data@
    }

    /// The position in bits.
    pub closed spec fn pos(&self) -> int {
        self.byte_offset * 8 + self.bit_offset
    }

    /// Whether the position is inside the data or at its end.
    pub closed spec fn valid(&self) -> bool {
        &&& self.bit_offset < 8
        &&& self.byte_offset <= self.data@.len()
    }

    /// A reader at the first bit.
    pub fn new(data: &'a [u8]) -> (r: BitReader<'a>)
        ensures
            r.valid(),
            r.bytes() == data@,
            r.pos() == 0,
    {
        BitReader { data, byte_offset: 0, bit_offset: 0 }
    }

    /// The next bit; zero past the end.
    pub fn read_bit(&mut self) -> (bit: u8)
        requires
            old(self).valid(),
        ensures
            final(self).valid(),
            final(self).bytes() == old(self).bytes(),
            bit == bit_at(old(self).bytes(), old(self).pos()),
            bit <= 1,
            final(self).pos() == bit_next(old(self).bytes(), old(self).pos()),
    {
        if self.byte_offset >= self.data.len() {
            return 0;
        }
        let b: u8 = self.data[self.byte_offset];
        let shift: u8 = 7 - self.bit_offset;
        let bit: u8 = (b >> shift) & 1;
        assert((b >> shift) & 1 <= 1) by (bit_vector);
        self.bit_offset = self.bit_offset + 1;
        if self.bit_offset == 8 {
            self.bit_offset = 0;
            self.byte_offset = self.byte_offset + 1;
        }
        bit
    }

    /// The number in the next `n` bits.
    pub fn read_bits(&mut self, n: u8) -> (v: u64)
        requires
            old(self).valid(),
            n <= 32,
        ensures
            final(self).valid(),
            final(self).bytes() == old(self).bytes(),
            (v as nat, final(self).pos()) == bits_at(
                old(self).bytes(),
                old(self).pos(),
                n as nat,
                0,
            ),
            v < two_to(n as nat),
    {
        let ghost s = self.bytes();
        let ghost p = self.pos();
        let mut v: u64 = 0;
        let mut i: u8 = 0;
        while i < n
            invariant
                i <= n <= 32,
                self.valid(),
                self.bytes() == s,
                bits_at(s, p, n as nat, 0) == bits_at(s, self.pos(), (n - i) as nat, v as nat),
                v < two_to(i as nat),
            decreases n - i,
        {
            proof {
                lemma_two_to_bound(i as nat);
            }
            let bit: u8 = self.read_bit();
            v = v * 2 + bit as u64;
            i = i + 1;
        }
        v
    }

    /// Skips `n` bits.
    pub fn skip(&mut self, n: u32)
        requires
            old(self).valid(),
        ensures
            final(self).valid(),
            final(self).bytes() == old(self).bytes(),
            final(self).pos() == skipped(old(self).bytes(), old(self).pos(), n as nat),
    {
        let ghost s = self.bytes();
        let ghost p = self.pos();
        let mut i: u32 = 0;
        while i < n
            invariant
                i <= n,
                self.valid(),
                self.bytes() == s,
                skipped(s, p, n as nat) == skipped(s, self.pos(), (n - i) as nat),
            decreases n - i,
        {
            self.read_bit();
            i = i + 1;
        }
    }

    /// The next unsigned Exp-Golomb number; zero where 32 zero bits stand.
    #[verifier::loop_isolation(false)]
    pub fn read_exp_golomb(&mut self) -> (v: u64)
        requires
            old(self).valid(),
        ensures
            final(self).valid(),
            final(self).bytes() == old(self).bytes(),
            (v as nat, final(self).pos()) == golomb_at(old(self).bytes(), old(self).pos()),
            v < 0x1_0000_0000,
    {
        let ghost s = self.bytes();
        let ghost p = self.pos();
        let mut zeros: u8 = 0;
        let mut power: u64 = 1;
        loop
            invariant
                zeros <= 31,
                power == two_to(zeros as nat),
                self.valid(),
                self.bytes() == s,
                zeros_at(s, p, 0) == zeros_at(s, self.pos(), zeros as nat),
            decreases 32 - zeros,
        {
            let bit: u8 = self.read_bit();
            if bit != 0 {
                break;
            }
            if zeros + 1 > 31 {
                return 0;
            }
            proof {
                lemma_two_to_bound(zeros as nat);
            }
            zeros = zeros + 1;
            power = power * 2;
        }
        if zeros == 0 {
            return 0;
        }
        proof {
            lemma_two_to_bound(zeros as nat);
        }
        let value: u64 = self.read_bits(zeros);
        power - 1 + value
    }

    /// The next signed Exp-Golomb number.
    pub fn read_signed_exp_golomb(&mut self) -> (v: i64)
        requires
            old(self).valid(),
        ensures
            final(self).valid(),
            final(self).bytes() == old(self).bytes(),
            v == signed_golomb(golomb_at(old(self).bytes(), old(self).pos()).0),
            final(self).pos() == golomb_at(old(self).bytes(), old(self).pos()).1,
            -0x1_0000_0000 < v < 0x1_0000_0000,
    {
        let code: u64 = self.read_exp_golomb();
        if code == 0 {
            return 0;
        }
        let half: i64 = ((code + 1) / 2) as i64;
        if code % 2 == 1 {
            half
        } else {
            -half
        }
    }
}

proof fn lemma_two_to_bound(n: nat)
    requires
        n <= 32,
    ensures
        1 <= two_to(n) <= 0x1_0000_0000,
        n <= 31 ==> two_to(n) <= 0x8000_0000,
    decreases n,
{
    reveal_with_fuel(two_to, 2);
    if n == 32 {
        assert(two_to(32) == 0x1_0000_0000) by {
            reveal_with_fuel(two_to, 33);
        }
    } else if n == 31 {
        assert(two_to(31) == 0x8000_0000) by {
            reveal_with_fuel(two_to, 33);
        }
    } else if n > 0 {
        lemma_two_to_bound((n - 1) as nat);
        lemma_two_to_small(n);
    }
}

proof fn lemma_two_to_small(n: nat)
    requires
        n <= 30,
    ensures
        two_to(n) <= 0x4000_0000,
    decreases 30 - n,
{
    if n == 30 {
        assert(two_to(30) == 0x4000_0000) by {
            reveal_with_fuel(two_to, 33);
        }
    } else {
        lemma_two_to_small(n + 1);
    }
}

/// The position after `n` more entries of a scaling list whose last and next scale are
/// given modulo 256. Once the next scale is zero, nothing more is read.
pub open spec fn scaling_end(s: Seq<u8>, p: int, n: nat, last: int, next: int) -> int
    decreases n,
{
    if n == 0 {
        p
    } else if next == 0 {
        scaling_end(s, p, (n - 1) as nat, last, next)
    } else {
        let (code, q) = golomb_at(s, p);
        let scale = (last + signed_golomb(code)) % 256;
        scaling_end(
            s,
            q,
            (n - 1) as nat,
            if scale == 0 {
                last
            } else {
                scale
            },
            scale,
        )
    }
}

/// Skips a scaling list.
pub fn skip_scaling_list(reader: &mut BitReader, size: usize)
    requires
        old(reader).valid(),
    ensures
        final(reader).valid(),
        final(reader).bytes() == old(reader).bytes(),
        final(reader).pos() == scaling_end(
            old(reader).bytes(),
            old(reader).pos(),
            size as nat,
            8,
            8,
        ),
{
    let ghost s = reader.bytes();
    let ghost p = reader.pos();
    let mut last: i64 = 8;
    let mut next: i64 = 8;
    let mut i: usize = 0;
    while i < size
        invariant
            i <= size,
            reader.valid(),
            reader.bytes() == s,
            0 <= last < 256,
            0 <= next < 256,
            scaling_end(s, p, size as nat, 8, 8) == scaling_end(
                s,
                reader.pos(),
                (size - i) as nat,
                last as int,
                next as int,
            ),
        decreases size - i,
    {
        if next != 0 {
            let delta: i64 = reader.read_signed_exp_golomb();
            let sum: u64 = (last + delta + 0x100_0000_0000) as u64;
            next = (sum % 256) as i64;
            assert((last + delta + 0x100_0000_0000int) % 256 == (last + delta) % 256);
        }
        if next != 0 {
            last = next;
        }
        i = i + 1;
    }
}

/// The position after `n` more optional scaling lists.
pub open spec fn matrix_end(s: Seq<u8>, p: int, n: nat) -> int
    decreases n,
{
    if n == 0 {
        p
    } else {
        let (present, q) = bits_at(s, p, 1, 0);
        matrix_end(
            s,
            if present == 1 {
                scaling_end(s, q, 64, 8, 8)
            } else {
                q
            },
            (n - 1) as nat,
        )
    }
}

/// The position after `n` more Exp-Golomb numbers.
pub open spec fn golombs_end(s: Seq<u8>, p: int, n: nat) -> int
    decreases n,
{
    if n == 0 {
        p
    } else {
        golombs_end(s, golomb_at(s, p).1, (n - 1) as nat)
    }
}

/// Whether a profile carries chroma and scaling information.
pub open spec fn high_profile(profile: nat) -> bool {
    profile == 100 || profile == 110 || profile == 122 || profile == 244 || profile == 44 || profile
        == 83 || profile == 86 || profile == 118 || profile == 128
}

/// The position after the chroma and scaling information that starts at `p`.
pub open spec fn chroma_end(s: Seq<u8>, p: int) -> int {
    let (chroma, p1) = golomb_at(s, p);
    let p2 = if chroma == 3 {
        skipped(s, p1, 1)
    } else {
        p1
    };
    let p3 = skipped(s, golombs_end(s, p2, 2), 1);
    let (present, p4) = bits_at(s, p3, 1, 0);
    if present == 1 {
        matrix_end(
            s,
            p4,
            if chroma != 3 {
                8
            } else {
                12
            },
        )
    } else {
        p4
    }
}

/// The position after the picture order count information that starts at `p`.
pub open spec fn poc_end(s: Seq<u8>, p: int) -> int {
    let (poc, p1) = golomb_at(s, p);
    if poc == 0 {
        golomb_at(s, p1).1
    } else if poc == 1 {
        let (count, p2) = golomb_at(s, golombs_end(s, skipped(s, p1, 1), 2));
        golombs_end(s, p2, count)
    } else {
        p1
    }
}

/// Width and height in a sequence parameter set: macroblocks of sixteen, map units that
/// count double for interlaced pictures.
pub open spec fn sps_dimensions(s: Seq<u8>) -> (u16, u16) {
    if s.len() < 5 {
        (0, 0)
    } else {
        let (profile, p1) = bits_at(s, skipped(s, 0, 8), 8, 0);
        let p2 = golomb_at(s, skipped(s, skipped(s, p1, 8), 8)).1;
        let p3 = if high_profile(profile) {
            chroma_end(s, p2)
        } else {
            p2
        };
        let p4 = poc_end(s, golomb_at(s, p3).1);
        let p5 = skipped(s, golomb_at(s, p4).1, 1);
        let (width, p6) = golomb_at(s, p5);
        let (height, p7) = golomb_at(s, p6);
        let (frames_only, _p8) = bits_at(s, p7, 1, 0);
        (((width + 1) * 16) as u16, ((2 - frames_only) * ((height + 1) * 16)) as u16)
    }
}

/// Skips `n` Exp-Golomb numbers.
fn skip_golombs(reader: &mut BitReader, n: u64)
    requires
        old(reader).valid(),
    ensures
        final(reader).valid(),
        final(reader).bytes() == old(reader).bytes(),
        final(reader).pos() == golombs_end(old(reader).bytes(), old(reader).pos(), n as nat),
{
    let ghost s = reader.bytes();
    let ghost p = reader.pos();
    let mut i: u64 = 0;
    while i < n
        invariant
            i <= n,
            reader.valid(),
            reader.bytes() == s,
            golombs_end(s, p, n as nat) == golombs_end(s, reader.pos(), (n - i) as nat),
        decreases n - i,
    {
        reader.read_exp_golomb();
        i = i + 1;
    }
}

/// Skips the chroma and scaling information.
fn skip_chroma(reader: &mut BitReader)
    requires
        old(reader).valid(),
    ensures
        final(reader).valid(),
        final(reader).bytes() == old(reader).bytes(),
        final(reader).pos() == chroma_end(old(reader).bytes(), old(reader).pos()),
{
    let ghost s = reader.bytes();
    let chroma: u64 = reader.read_exp_golomb();
    if chroma == 3 {
        reader.skip(1);
    }
    skip_golombs(reader, 2);
    reader.skip(1);
    let present: u64 = reader.read_bits(1);
    if present == 1 {
        let count: u8 = if chroma != 3 {
            8
        } else {
            12
        };
        let ghost start = reader.pos();
        let mut i: u8 = 0;
        while i < count
            invariant
                i <= count,
                reader.valid(),
                reader.bytes() == s,
                matrix_end(s, start, count as nat) == matrix_end(
                    s,
                    reader.pos(),
                    (count - i) as nat,
                ),
            decreases count - i,
        {
            let listed: u64 = reader.read_bits(1);
            if listed == 1 {
                skip_scaling_list(reader, 64);
            }
            i = i + 1;
        }
    }
}

/// Skips the picture order count information.
fn skip_poc(reader: &mut BitReader)
    requires
        old(reader).valid(),
    ensures
        final(reader).valid(),
        final(reader).bytes() == old(reader).bytes(),
        final(reader).pos() == poc_end(old(reader).bytes(), old(reader).pos()),
{
    let poc_type: u64 = reader.read_exp_golomb();
    if poc_type == 0 {
        reader.read_exp_golomb();
    } else if poc_type == 1 {
        reader.skip(1);
        skip_golombs(reader, 2);
        let num_ref: u64 = reader.read_exp_golomb();
        skip_golombs(reader, num_ref);
    }
}

/// SPS dimension parser using exp-golomb decoding.
pub fn parse_sps_dimensions(sps_data: &[u8]) -> (size: (u16, u16))
    ensures
        size == sps_dimensions(sps_data@),
{
    if sps_data.len() < 5 {
        return (0, 0);
    }
    let mut reader: BitReader = BitReader::new(sps_data);
    reader.skip(8);
    let profile_idc: u64 = reader.read_bits(8);
    reader.skip(8);
    reader.skip(8);
    reader.read_exp_golomb();
    if profile_idc == 100 || profile_idc == 110 || profile_idc == 122 || profile_idc == 244
        || profile_idc == 44 || profile_idc == 83 || profile_idc == 86 || profile_idc == 118
        || profile_idc == 128 {
        skip_chroma(&mut reader);
    }
    reader.read_exp_golomb();
    skip_poc(&mut reader);
    reader.read_exp_golomb();
    reader.skip(1);
    let width: u64 = reader.read_exp_golomb();
    let height: u64 = reader.read_exp_golomb();
    let frames_only: u64 = reader.read_bits(1);
    assert(two_to(1) == 2) by {
        reveal_with_fuel(two_to, 2);
    }
    let rows: u64 = (height + 1) * 16;
    let total: u64 = if frames_only == 1 {
        rows
    } else {
        2 * rows
    };
    assert(total == (2 - frames_only) * rows) by (nonlinear_arith)
        requires
            frames_only == 0 || frames_only == 1,
            total == if frames_only == 1 { rows as int } else { 2 * rows },
    ;
    (((width + 1) * 16) as u16, total as u16)
}

/// Parse SPS (Sequence Parameter Set) to extract video dimensions and profile info.
///
/// Returns `(width, height, profile_idc, level_idc)`.
pub fn parse_sps(sps_data: &[u8]) -> (info: (u16, u16, u8, u8))
    ensures
        info == (if sps_data@.len() < 4 {
            (0u16, 0u16, 0u8, 0u8)
        } else {
            (
                sps_dimensions(sps_data@).0,
                sps_dimensions(sps_data@).1,
                sps_data@[1],
                sps_data@[3],
            )
        }),
{
    if sps_data.len() < 4 {
        return (0, 0, 0, 0);
    }
    let (width, height) = parse_sps_dimensions(sps_data);
    (width, height, sps_data[1], sps_data[3])
}

pub const AVC_CONFIG: FourCC = [0x61, 0x76, 0x63, 0x43];

pub const ESDS: FourCC = [0x65, 0x73, 0x64, 0x73];

pub const VMHD: FourCC = [0x76, 0x6d, 0x68, 0x64];

pub const SMHD: FourCC = [0x73, 0x6d, 0x68, 0x64];

pub const DINF: FourCC = [0x64, 0x69, 0x6e, 0x66];

pub const DREF: FourCC = [0x64, 0x72, 0x65, 0x66];

pub const URL: FourCC = [0x75, 0x72, 0x6c, 0x20];

pub const AVC1: FourCC = [0x61, 0x76, 0x63, 0x31];

pub const MP4A: FourCC = [0x6d, 0x70, 0x34, 0x61];

pub const STTS: FourCC = [0x73, 0x74, 0x74, 0x73];

pub const STSC: FourCC = [0x73, 0x74, 0x73, 0x63];

pub const STSZ: FourCC = [0x73, 0x74, 0x73, 0x7a];

pub const STCO: FourCC = [0x73, 0x74, 0x63, 0x6f];

pub const VIDE: FourCC = [0x76, 0x69, 0x64, 0x65];

pub const SOUN: FourCC = [0x73, 0x6f, 0x75, 0x6e];

/// The byte of an SPS that holds its constraint flags; zero where it is missing.
pub open spec fn constraint_flags(sps: Seq<u8>) -> u8 {
    if sps.len() >= 3 {
        sps[2]
    } else {
        0
    }
}

/// An AVC decoder configuration record: four-byte lengths, one SPS and one PPS.
pub open spec fn avc_config(sps: Seq<u8>, pps: Seq<u8>, profile: u8, level: u8) -> Seq<u8> {
    cmaf::boxed(
        AVC_CONFIG@,
        seq![1u8, profile, constraint_flags(sps), level, 0xFFu8, 0xE1u8] + bytes::bytes16(
            sps.len() as u16,
        ) + sps + seq![1u8] + bytes::bytes16(pps.len() as u16) + pps,
    )
}

/// Build an avcC (AVC Decoder Configuration Record) box.
pub fn build_avcc_box(sps: &[u8], pps: &[u8], profile: u8, level: u8) -> (out: Vec<u8>)
    ensures
        out@ == avc_config(sps@, pps@, profile, level),
{
    let flags: u8 = if sps.len() >= 3 {
        sps[2]
    } else {
        0
    };
    let mut record: Vec<u8> = vec![1, profile, flags, level, 0xFF, 0xE1];
    assert(record@ =~= seq![1u8, profile, flags, level, 0xFFu8, 0xE1u8]);
    bytes::put_u16(&mut record, sps.len() as u16);
    bytes::put_bytes(&mut record, sps);
    cmaf::put_byte(&mut record, 1);
    bytes::put_u16(&mut record, pps.len() as u16);
    bytes::put_bytes(&mut record, pps);
    cmaf::make_box(&AVC_CONFIG, record.as_slice())
}

/// The index of an AAC sampling frequency; that of 44100 Hz for one without an index.
pub open spec fn rate_index(rate: u32) -> u8 {
    if rate == 96000 {
        0
    } else if rate == 88200 {
        1
    } else if rate == 64000 {
        2
    } else if rate == 48000 {
        3
    } else if rate == 44100 {
        4
    } else if rate == 32000 {
        5
    } else if rate == 24000 {
        6
    } else if rate == 22050 {
        7
    } else if rate == 16000 {
        8
    } else if rate == 12000 {
        9
    } else if rate == 11025 {
        10
    } else if rate == 8000 {
        11
    } else {
        4
    }
}

/// The AAC sampling frequency with an index; 44100 Hz where the index has none.
pub open spec fn rate_of(index: u8) -> u32 {
    if index == 0 {
        96000
    } else if index == 1 {
        88200
    } else if index == 2 {
        64000
    } else if index == 3 {
        48000
    } else if index == 4 {
        44100
    } else if index == 5 {
        32000
    } else if index == 6 {
        24000
    } else if index == 7 {
        22050
    } else if index == 8 {
        16000
    } else if index == 9 {
        12000
    } else if index == 10 {
        11025
    } else if index == 11 {
        8000
    } else {
        44100
    }
}

/// The two bytes of an AudioSpecificConfig: five bits of profile, four of frequency
/// index, four of channel configuration.
pub open spec fn audio_specific(profile: u8, rate: u32, channels: u8) -> Seq<u8> {
    seq![
        ((profile % 32) * 8 + rate_index(rate) / 2) as u8,
        ((rate_index(rate) % 2) * 128 + (channels % 16) * 8) as u8,
    ]
}

/// An elementary stream descriptor for AAC at 128 kbit/s.
pub open spec fn esds_box(profile: u8, rate: u32, channels: u8) -> Seq<u8> {
    cmaf::full_boxed(
        ESDS@,
        0,
        0,
        // ES descriptor of 25 bytes, decoder configuration of 17 bytes
        seq![0x03u8, 25u8, 0x00u8, 0x01u8, 0x00u8, 0x04u8, 17u8, 0x40u8, 0x15u8] + bytes::zeros(3)
            + bytes::bytes32(128000) + bytes::bytes32(128000) + seq![0x05u8, 2u8] + audio_specific(
            profile,
            rate,
            channels,
        ) + seq![0x06u8, 0x01u8, 0x02u8],
    )
}

/// The index of an AAC sampling frequency.
fn sample_rate_index(rate: u32) -> (index: u8)
    ensures
        index == rate_index(rate),
        index <= 11,
{
    match rate {
        96000 => 0,
        88200 => 1,
        64000 => 2,
        48000 => 3,
        44100 => 4,
        32000 => 5,
        24000 => 6,
        22050 => 7,
        16000 => 8,
        12000 => 9,
        11025 => 10,
        8000 => 11,
        _ => 4,
    }
}

/// Build an esds (Elementary Stream Descriptor) box for AAC.
pub fn build_esds_box(profile: u8, sample_rate: u32, channels: u8) -> (out: Vec<u8>)
    ensures
        out@ == esds_box(profile, sample_rate, channels),
{
    let index: u8 = sample_rate_index(sample_rate);
    let asc: Vec<u8> = vec![(profile % 32) * 8 + index / 2, (index % 2) * 128 + (channels % 16) * 8];
    assert(asc@ =~= audio_specific(profile, sample_rate, channels));
    let mut es: Vec<u8> = vec![0x03, 25, 0x00, 0x01, 0x00, 0x04, 17, 0x40, 0x15];
    assert(es@ =~= seq![0x03u8, 25u8, 0x00u8, 0x01u8, 0x00u8, 0x04u8, 17u8, 0x40u8, 0x15u8]);
    bytes::put_zeros(&mut es, 3);
    bytes::put_u32(&mut es, 128000);
    bytes::put_u32(&mut es, 128000);
    let info: Vec<u8> = vec![0x05, 2];
    assert(info@ =~= seq![0x05u8, 2u8]);
    bytes::put_bytes(&mut es, info.as_slice());
    bytes::put_bytes(&mut es, asc.as_slice());
    let sync: Vec<u8> = vec![0x06, 0x01, 0x02];
    assert(sync@ =~= seq![0x06u8, 0x01u8, 0x02u8]);
    bytes::put_bytes(&mut es, sync.as_slice());
    cmaf::make_full_box(&ESDS, 0, 0, es.as_slice())
}

/// The first NAL unit of type `kind` from `i` on.
pub open spec fn first_nal(nals: Seq<(u8, Seq<u8>)>, i: int, kind: u8) -> Option<Seq<u8>>
    decreases nals.len() - i,
{
    if i < 0 || i >= nals.len() {
        None
    } else if nals[i].0 == kind {
        Some(nals[i].1)
    } else {
        first_nal(nals, i + 1, kind)
    }
}

/// Profile and level as an SPS gives them.
pub open spec fn sps_info(sps: Seq<u8>) -> (u16, u16, u8, u8) {
    if sps.len() < 4 {
        (0u16, 0u16, 0u8, 0u8)
    } else {
        (sps_dimensions(sps).0, sps_dimensions(sps).1, sps[1], sps[3])
    }
}

/// The video configuration in an Annex B byte stream: its first SPS and first PPS.
pub open spec fn video_config_of(s: Seq<u8>) -> Result<VideoView, ErrorView> {
    match first_nal(nals_of(s), 0, 7) {
        None => Err(ErrorView::MediaParse("no SPS found in video PES data"@)),
        Some(sps) => match first_nal(nals_of(s), 0, 8) {
            None => Err(ErrorView::MediaParse("no PPS found in video PES data"@)),
            Some(pps) => {
                let (width, height, profile, level) = sps_info(sps);
                Ok(
                    VideoView {
                        codec: TsCodec::H264,
                        width,
                        height,
                        sps,
                        pps,
                        profile_idc: profile,
                        level_idc: level,
                        codec_string: "avc1."@ + text::hex2(profile) + text::hex2(
                            constraint_flags(sps),
                        ) + text::hex2(level),
                    },
                )
            },
        },
    }
}

/// The first NAL unit of type `kind`.
#[verifier::loop_isolation(false)]
fn find_nal(nals: &Vec<(u8, Vec<u8>)>, kind: u8) -> (found: Option<Vec<u8>>)
    ensures
        cmaf::opt_bytes(found) == first_nal(nals_view(nals@), 0, kind),
{
    let ghost views = nals_view(nals@);
    let mut i: usize = 0;
    while i < nals.len()
        invariant
            i <= nals.len(),
            first_nal(views, 0, kind) == first_nal(views, i as int, kind),
        decreases nals.len() - i,
    {
        assert(views[i as int] == (nals@[i as int].0, nals@[i as int].1@));
        if nals[i].0 == kind {
            return Some(bytes::to_vec(nals[i].1.as_slice()));
        }
        i = i + 1;
    }
    None
}

/// Extract video configuration (SPS/PPS) from the first video PES packet.
pub fn extract_video_config(pes: &PesPacket) -> (r: Result<VideoConfig, EdgepackError>)
    ensures
        cmaf::outcome_view(r) == video_config_of(pes.data@),
{
    let nals: Vec<(u8, Vec<u8>)> = extract_h264_nal_units(pes.data.as_slice());
    let sps: Vec<u8> = match find_nal(&nals, 7) {
        Some(sps) => sps,
        None => return Err(EdgepackError::media_parse("no SPS found in video PES data")),
    };
    let pps: Vec<u8> = match find_nal(&nals, 8) {
        Some(pps) => pps,
        None => return Err(EdgepackError::media_parse("no PPS found in video PES data")),
    };
    let (width, height, profile_idc, level_idc) = parse_sps(sps.as_slice());
    let flags: u8 = if sps.len() >= 3 {
        sps[2]
    } else {
        0
    };
    let mut codec_string: String = "avc1.".to_owned();
    text::put_hex2(&mut codec_string, profile_idc);
    text::put_hex2(&mut codec_string, flags);
    text::put_hex2(&mut codec_string, level_idc);
    Ok(
        VideoConfig {
            codec: TsCodec::H264,
            width,
            height,
            sps,
            pps,
            profile_idc,
            level_idc,
            codec_string,
        },
    )
}

/// Whether an ADTS sync word stands at `i`.
pub open spec fn adts_sync(s: Seq<u8>, i: int) -> bool {
    s[i] == 0xFF && s[i + 1] / 16 == 15
}

/// The audio configuration in an ADTS header.
pub open spec fn audio_config_of(s: Seq<u8>) -> Result<AudioView, ErrorView> {
    if s.len() < 7 {
        Err(ErrorView::MediaParse("audio PES data too short for ADTS header"@))
    } else if !adts_sync(s, 0) {
        Err(ErrorView::MediaParse("invalid ADTS sync word"@))
    } else {
        let profile = (s[2] / 64 + 1) as u8;
        Ok(
            AudioView {
                codec: TsCodec::Aac,
                sample_rate: rate_of((s[2] / 4) % 16),
                channel_count: ((s[2] % 2) * 4 + s[3] / 64) as u8,
                aac_profile: profile,
                codec_string: "mp4a.40."@ + text::dec(profile as nat),
            },
        )
    }
}

/// Extract audio configuration from the first audio PES packet (ADTS header).
pub fn extract_audio_config(pes: &PesPacket) -> (r: Result<AudioConfig, EdgepackError>)
    ensures
        cmaf::outcome_view(r) == audio_config_of(pes.data@),
{
    let data: &Vec<u8> = &pes.data;
    if data.len() < 7 {
        return Err(EdgepackError::media_parse("audio PES data too short for ADTS header"));
    }
    if data[0] != 0xFF || data[1] / 16 != 15 {
        return Err(EdgepackError::media_parse("invalid ADTS sync word"));
    }
    let profile: u8 = data[2] / 64 + 1;
    let channel_config: u8 = (data[2] % 2) * 4 + data[3] / 64;
    let sample_rate: u32 = match (data[2] / 4) % 16 {
        0 => 96000,
        1 => 88200,
        2 => 64000,
        3 => 48000,
        4 => 44100,
        5 => 32000,
        6 => 24000,
        7 => 22050,
        8 => 16000,
        9 => 12000,
        10 => 11025,
        11 => 8000,
        _ => 44100,
    };
    let mut codec_string: String = "mp4a.40.".to_owned();
    text::put_dec(&mut codec_string, profile as u64);
    Ok(
        AudioConfig {
            codec: TsCodec::Aac,
            sample_rate,
            channel_count: channel_config,
            aac_profile: profile,
            codec_string,
        },
    )
}

/// The length field of the ADTS header at `i`.
pub open spec fn adts_length(s: Seq<u8>, i: int) -> int {
    (s[i + 3] % 4) * 2048 + s[i + 4] * 8 + s[i + 5] / 32
}

/// The length of the ADTS header at `i`, with or without a checksum.
pub open spec fn adts_header(s: Seq<u8>, i: int) -> int {
    if s[i + 1] % 2 == 0 {
        9
    } else {
        7
    }
}

/// The raw AAC frames from `i` on, after `got`. What is no ADTS frame is taken as it is,
/// up to the end; fewer than seven bytes at the end are left out.
pub open spec fn adts_from(s: Seq<u8>, i: int, got: Seq<u8>) -> Seq<u8>
    decreases s.len() - i,
{
    if i < 0 || i + 7 > s.len() {
        got
    } else if adts_sync(s, i) && adts_length(s, i) > adts_header(s, i) && i + adts_length(s, i)
        <= s.len() {
        adts_from(
            s,
            i + adts_length(s, i),
            got + s.subrange(i + adts_header(s, i), i + adts_length(s, i)),
        )
    } else {
        got + s.subrange(i, s.len() as int)
    }
}

/// Strip ADTS headers from AAC data, returning raw AAC frames.
pub fn strip_adts_headers(data: &[u8]) -> (out: Vec<u8>)
    ensures
        out@ == adts_from(data@, 0, Seq::empty()),
{
    let mut out: Vec<u8> = Vec::new();
    let mut pos: usize = 0;
    while data.len() >= 7 && pos <= data.len() - 7
        invariant
            pos <= data.len(),
            adts_from(data@, 0, Seq::empty()) == adts_from(data@, pos as int, out@),
        decreases data.len() - pos,
    {
        if data[pos] == 0xFF && data[pos + 1] / 16 == 15 {
            let header: usize = if data[pos + 1] % 2 == 0 {
                9
            } else {
                7
            };
            let length: usize = (data[pos + 3] % 4) as usize * 2048 + data[pos + 4] as usize * 8 + (
            data[pos + 5] / 32) as usize;
            if length > header && length <= data.len() - pos {
                bytes::put_bytes(&mut out, &data[pos + header..pos + length]);
                pos = pos + length;
                continue ;
            }
        }
        bytes::put_bytes(&mut out, &data[pos..data.len()]);
        return out;
    }
    out
}

/// The identity matrix in fixed point.
pub open spec fn identity_matrix() -> Seq<u8> {
    bytes::bytes32(0x10000) + bytes::zeros(12) + bytes::bytes32(0x10000) + bytes::zeros(12)
        + bytes::bytes32(0x4000_0000)
}

/// Appends the identity matrix.
fn put_matrix(out: &mut Vec<u8>)
    ensures
        final(out)@ == old(out)@ + identity_matrix(),
{
    bytes::put_u32(out, 0x10000);
    bytes::put_zeros(out, 12);
    bytes::put_u32(out, 0x10000);
    bytes::put_zeros(out, 12);
    bytes::put_u32(out, 0x4000_0000);
    assert(out@ =~= old(out)@ + identity_matrix());
}

/// A vector of `n` zero bytes.
fn zero_bytes(n: usize) -> (out: Vec<u8>)
    ensures
        out@ == bytes::zeros(n as nat),
{
    let mut out: Vec<u8> = Vec::new();
    bytes::put_zeros(&mut out, n);
    assert(out@ =~= bytes::zeros(n as nat));
    out
}

/// A vector with the four bytes of `v`.
fn word_bytes(v: u32) -> (out: Vec<u8>)
    ensures
        out@ == bytes::bytes32(v),
{
    let mut out: Vec<u8> = Vec::new();
    bytes::put_u32(&mut out, v);
    assert(out@ =~= bytes::bytes32(v));
    out
}

/// A movie header with a timescale.
pub open spec fn mvhd_box(timescale: u32) -> Seq<u8> {
    cmaf::full_boxed(
        box_type::MVHD@,
        0,
        0,
        bytes::zeros(8) + bytes::bytes32(timescale) + bytes::zeros(4) + bytes::bytes32(0x10000)
            + bytes::bytes16(0x100) + bytes::zeros(10) + identity_matrix() + bytes::zeros(24)
            + bytes::bytes32(0xFFFF_FFFF),
    )
}

/// Builds a movie header: rate and volume 1.0.
pub fn build_mvhd(timescale: u32) -> (out: Vec<u8>)
    ensures
        out@ == mvhd_box(timescale),
{
    let mut body: Vec<u8> = zero_bytes(8);
    bytes::put_u32(&mut body, timescale);
    bytes::put_zeros(&mut body, 4);
    bytes::put_u32(&mut body, 0x10000);
    bytes::put_u16(&mut body, 0x100);
    bytes::put_zeros(&mut body, 10);
    put_matrix(&mut body);
    bytes::put_zeros(&mut body, 24);
    bytes::put_u32(&mut body, 0xFFFF_FFFF);
    cmaf::make_full_box(&box_type::MVHD, 0, 0, body.as_slice())
}

/// The low 16 bits of a number as a 16.16 fixed-point number.
pub open spec fn fixed16(v: u32) -> u32 {
    ((v % 0x10000) * 0x10000) as u32
}

/// A track header.
pub open spec fn tkhd_box(track_id: u32, width: u32, height: u32, is_audio: bool) -> Seq<u8> {
    cmaf::full_boxed(
        box_type::TKHD@,
        0,
        3,
        bytes::zeros(8) + bytes::bytes32(track_id) + bytes::zeros(18) + bytes::bytes16(
            if is_audio {
                1
            } else {
                0
            },
        ) + bytes::bytes16(
            if is_audio {
                0x100
            } else {
                0
            },
        ) + bytes::zeros(2) + identity_matrix() + bytes::bytes32(fixed16(width)) + bytes::bytes32(
            fixed16(height),
        ),
    )
}

/// Builds the header of an enabled track that is in the movie.
pub fn build_tkhd(track_id: u32, width: u32, height: u32, is_audio: bool) -> (out: Vec<u8>)
    ensures
        out@ == tkhd_box(track_id, width, height, is_audio),
{
    let mut body: Vec<u8> = zero_bytes(8);
    bytes::put_u32(&mut body, track_id);
    bytes::put_zeros(&mut body, 18);
    bytes::put_u16(
        &mut body,
        if is_audio {
            1
        } else {
            0
        },
    );
    bytes::put_u16(
        &mut body,
        if is_audio {
            0x100
        } else {
            0
        },
    );
    bytes::put_zeros(&mut body, 2);
    put_matrix(&mut body);
    bytes::put_u32(&mut body, (width % 0x10000) * 0x10000);
    bytes::put_u32(&mut body, (height % 0x10000) * 0x10000);
    cmaf::make_full_box(&box_type::TKHD, 0, 3, body.as_slice())
}

/// A media header with a timescale; the language is undetermined.
pub open spec fn mdhd_box(timescale: u32) -> Seq<u8> {
    cmaf::full_boxed(
        box_type::MDHD@,
        0,
        0,
        bytes::zeros(8) + bytes::bytes32(timescale) + bytes::zeros(4) + bytes::bytes16(0x55C4)
            + bytes::zeros(2),
    )
}

/// Builds a media header.
pub fn build_mdhd(timescale: u32) -> (out: Vec<u8>)
    ensures
        out@ == mdhd_box(timescale),
{
    let mut body: Vec<u8> = zero_bytes(8);
    bytes::put_u32(&mut body, timescale);
    bytes::put_zeros(&mut body, 4);
    bytes::put_u16(&mut body, 0x55C4);
    bytes::put_zeros(&mut body, 2);
    cmaf::make_full_box(&box_type::MDHD, 0, 0, body.as_slice())
}

/// A handler box with the handler's type and name.
pub open spec fn hdlr_box(handler: Seq<u8>, name: Seq<char>) -> Seq<u8> {
    cmaf::full_boxed(
        box_type::HDLR@,
        0,
        0,
        bytes::zeros(4) + handler + bytes::zeros(12) + cmaf::utf8(name) + seq![0u8],
    )
}

/// Builds a handler box.
pub fn build_hdlr(handler_type: &FourCC, name: &str) -> (out: Vec<u8>)
    ensures
        out@ == hdlr_box(handler_type@, name@),
{
    let mut body: Vec<u8> = zero_bytes(4);
    bytes::put_bytes(&mut body, handler_type.as_slice());
    bytes::put_zeros(&mut body, 12);
    bytes::put_bytes(&mut body, name.as_bytes());
    cmaf::put_byte(&mut body, 0);
    cmaf::make_full_box(&box_type::HDLR, 0, 0, body.as_slice())
}

/// A video media header.
pub open spec fn vmhd_box() -> Seq<u8> {
    cmaf::full_boxed(VMHD@, 0, 1, bytes::zeros(8))
}

/// Builds a video media header.
pub fn build_vmhd() -> (out: Vec<u8>)
    ensures
        out@ == vmhd_box(),
{
    cmaf::make_full_box(&VMHD, 0, 1, zero_bytes(8).as_slice())
}

/// A sound media header.
pub open spec fn smhd_box() -> Seq<u8> {
    cmaf::full_boxed(SMHD@, 0, 0, bytes::zeros(4))
}

/// Builds a sound media header.
pub fn build_smhd() -> (out: Vec<u8>)
    ensures
        out@ == smhd_box(),
{
    cmaf::make_full_box(&SMHD, 0, 0, zero_bytes(4).as_slice())
}

/// Data information: one reference, to the file itself.
pub open spec fn dinf_box() -> Seq<u8> {
    cmaf::boxed(
        DINF@,
        cmaf::full_boxed(
            DREF@,
            0,
            0,
            bytes::bytes32(1) + cmaf::full_boxed(URL@, 0, 1, Seq::empty()),
        ),
    )
}

/// Builds a data information box.
pub fn build_dinf() -> (out: Vec<u8>)
    ensures
        out@ == dinf_box(),
{
    let none: Vec<u8> = Vec::new();
    let url_box: Vec<u8> = cmaf::make_full_box(&URL, 0, 1, none.as_slice());
    assert(none@ =~= Seq::empty());
    let mut body: Vec<u8> = word_bytes(1);
    bytes::put_bytes(&mut body, url_box.as_slice());
    let dref: Vec<u8> = cmaf::make_full_box(&DREF, 0, 0, body.as_slice());
    cmaf::make_box(&DINF, dref.as_slice())
}

/// A sample table box without entries.
pub open spec fn empty_table(code: Seq<u8>) -> Seq<u8> {
    cmaf::full_boxed(code, 0, 0, bytes::bytes32(0))
}

/// Builds an empty decoding time table.
pub fn build_empty_stts() -> (out: Vec<u8>)
    ensures
        out@ == empty_table(STTS@),
{
    cmaf::make_full_box(&STTS, 0, 0, word_bytes(0).as_slice())
}

/// Builds an empty sample-to-chunk table.
pub fn build_empty_stsc() -> (out: Vec<u8>)
    ensures
        out@ == empty_table(STSC@),
{
    cmaf::make_full_box(&STSC, 0, 0, word_bytes(0).as_slice())
}

/// An empty sample size table.
pub open spec fn empty_stsz() -> Seq<u8> {
    cmaf::full_boxed(STSZ@, 0, 0, bytes::zeros(8))
}

/// Builds an empty sample size table.
pub fn build_empty_stsz() -> (out: Vec<u8>)
    ensures
        out@ == empty_stsz(),
{
    cmaf::make_full_box(&STSZ, 0, 0, zero_bytes(8).as_slice())
}

/// Builds an empty chunk offset table.
pub fn build_empty_stco() -> (out: Vec<u8>)
    ensures
        out@ == empty_table(STCO@),
{
    cmaf::make_full_box(&STCO, 0, 0, word_bytes(0).as_slice())
}

/// A sample table with one sample entry and no samples.
pub open spec fn stbl_box(entry: Seq<u8>) -> Seq<u8> {
    cmaf::boxed(
        box_type::STBL@,
        cmaf::full_boxed(box_type::STSD@, 0, 0, bytes::bytes32(1) + entry) + empty_table(STTS@)
            + empty_table(STSC@) + empty_stsz() + empty_table(STCO@),
    )
}

/// Builds a sample table with one sample entry and no samples.
fn build_stbl(entry: &[u8]) -> (out: Vec<u8>)
    ensures
        out@ == stbl_box(entry@),
{
    let mut body: Vec<u8> = word_bytes(1);
    bytes::put_bytes(&mut body, entry);
    let mut children: Vec<u8> = cmaf::make_full_box(&box_type::STSD, 0, 0, body.as_slice());
    bytes::put_bytes(&mut children, build_empty_stts().as_slice());
    bytes::put_bytes(&mut children, build_empty_stsc().as_slice());
    bytes::put_bytes(&mut children, build_empty_stsz().as_slice());
    bytes::put_bytes(&mut children, build_empty_stco().as_slice());
    cmaf::make_box(&box_type::STBL, children.as_slice())
}

/// An avc1 sample entry.
pub open spec fn avc1_entry(v: VideoView) -> Seq<u8> {
    cmaf::boxed(
        AVC1@,
        bytes::zeros(6) + bytes::bytes16(1) + bytes::zeros(16) + bytes::bytes16(v.width)
            + bytes::bytes16(v.height) + bytes::bytes32(0x48_0000) + bytes::bytes32(0x48_0000)
            + bytes::zeros(4) + bytes::bytes16(1) + bytes::zeros(32) + bytes::bytes16(0x18)
            + bytes::bytes16(0xFFFF) + avc_config(v.sps, v.pps, v.profile_idc, v.level_idc),
    )
}

/// Builds the sample table of a video track.
pub fn build_video_stbl(config: &VideoConfig) -> (out: Vec<u8>)
    ensures
        out@ == stbl_box(avc1_entry(config@)),
{
    let avcc: Vec<u8> = build_avcc_box(
        config.sps.as_slice(),
        config.pps.as_slice(),
        config.profile_idc,
        config.level_idc,
    );
    let mut body: Vec<u8> = zero_bytes(6);
    bytes::put_u16(&mut body, 1);
    bytes::put_zeros(&mut body, 16);
    bytes::put_u16(&mut body, config.width);
    bytes::put_u16(&mut body, config.height);
    bytes::put_u32(&mut body, 0x48_0000);
    bytes::put_u32(&mut body, 0x48_0000);
    bytes::put_zeros(&mut body, 4);
    bytes::put_u16(&mut body, 1);
    bytes::put_zeros(&mut body, 32);
    bytes::put_u16(&mut body, 0x18);
    bytes::put_u16(&mut body, 0xFFFF);
    bytes::put_bytes(&mut body, avcc.as_slice());
    let avc1: Vec<u8> = cmaf::make_box(&AVC1, body.as_slice());
    build_stbl(avc1.as_slice())
}

/// An mp4a sample entry.
pub open spec fn mp4a_entry(a: AudioView) -> Seq<u8> {
    cmaf::boxed(
        MP4A@,
        bytes::zeros(6) + bytes::bytes16(1) + bytes::zeros(8) + bytes::bytes16(
            a.channel_count as u16,
        ) + bytes::bytes16(16) + bytes::zeros(4) + bytes::bytes32(fixed16(a.sample_rate))
            + esds_box(a.aac_profile, a.sample_rate, a.channel_count),
    )
}

/// Builds the sample table of an audio track.
pub fn build_audio_stbl(config: &AudioConfig) -> (out: Vec<u8>)
    ensures
        out@ == stbl_box(mp4a_entry(config@)),
{
    let esds: Vec<u8> = build_esds_box(
        config.aac_profile,
        config.sample_rate,
        config.channel_count,
    );
    let mut body: Vec<u8> = zero_bytes(6);
    bytes::put_u16(&mut body, 1);
    bytes::put_zeros(&mut body, 8);
    bytes::put_u16(&mut body, config.channel_count as u16);
    bytes::put_u16(&mut body, 16);
    bytes::put_zeros(&mut body, 4);
    bytes::put_u32(&mut body, (config.sample_rate % 0x10000) * 0x10000);
    bytes::put_bytes(&mut body, esds.as_slice());
    let mp4a: Vec<u8> = cmaf::make_box(&MP4A, body.as_slice());
    build_stbl(mp4a.as_slice())
}

/// A track from its header, media header, handler, media information header and sample
/// table.
pub open spec fn trak_box(
    tkhd: Seq<u8>,
    mdhd: Seq<u8>,
    hdlr: Seq<u8>,
    header: Seq<u8>,
    stbl: Seq<u8>,
) -> Seq<u8> {
    cmaf::boxed(
        box_type::TRAK@,
        tkhd + cmaf::boxed(
            box_type::MDIA@,
            mdhd + hdlr + cmaf::boxed(box_type::MINF@, header + dinf_box() + stbl),
        ),
    )
}

/// Builds a track from its parts.
fn build_trak(tkhd: Vec<u8>, mdhd: Vec<u8>, hdlr: Vec<u8>, header: Vec<u8>, stbl: Vec<u8>) -> (out:
    Vec<u8>)
    ensures
        out@ == trak_box(tkhd@, mdhd@, hdlr@, header@, stbl@),
{
    let mut minf: Vec<u8> = header;
    bytes::put_bytes(&mut minf, build_dinf().as_slice());
    bytes::put_bytes(&mut minf, stbl.as_slice());
    let mut mdia: Vec<u8> = mdhd;
    bytes::put_bytes(&mut mdia, hdlr.as_slice());
    cmaf::put_box(&mut mdia, &box_type::MINF, minf.as_slice());
    let mut trak: Vec<u8> = tkhd;
    cmaf::put_box(&mut trak, &box_type::MDIA, mdia.as_slice());
    cmaf::make_box(&box_type::TRAK, trak.as_slice())
}

/// A video track, with the transport stream's clock of 90 kHz.
pub open spec fn video_trak(track_id: u32, v: VideoView) -> Seq<u8> {
    trak_box(
        tkhd_box(track_id, v.width as u32, v.height as u32, false),
        mdhd_box(90000),
        hdlr_box(VIDE@, "VideoHandler"@),
        vmhd_box(),
        stbl_box(avc1_entry(v)),
    )
}

/// Builds a video track.
pub fn build_video_trak(track_id: u32, config: &VideoConfig) -> (out: Vec<u8>)
    ensures
        out@ == video_trak(track_id, config@),
{
    build_trak(
        build_tkhd(track_id, config.width as u32, config.height as u32, false),
        build_mdhd(90000),
        build_hdlr(&VIDE, "VideoHandler"),
        build_vmhd(),
        build_video_stbl(config),
    )
}

/// An audio track, with its sample rate as timescale.
pub open spec fn audio_trak(track_id: u32, a: AudioView) -> Seq<u8> {
    trak_box(
        tkhd_box(track_id, 0, 0, true),
        mdhd_box(a.sample_rate),
        hdlr_box(SOUN@, "SoundHandler"@),
        smhd_box(),
        stbl_box(mp4a_entry(a)),
    )
}

/// Builds an audio track.
pub fn build_audio_trak(track_id: u32, config: &AudioConfig) -> (out: Vec<u8>)
    ensures
        out@ == audio_trak(track_id, config@),
{
    build_trak(
        build_tkhd(track_id, 0, 0, true),
        build_mdhd(config.sample_rate),
        build_hdlr(&SOUN, "SoundHandler"),
        build_smhd(),
        build_audio_stbl(config),
    )
}

/// Fragment defaults of a track.
pub open spec fn trex_box(track_id: u32) -> Seq<u8> {
    cmaf::full_boxed(
        box_type::TREX@,
        0,
        0,
        bytes::bytes32(track_id) + bytes::bytes32(1) + bytes::zeros(12),
    )
}

/// Builds the fragment defaults of a track.
pub fn build_trex(track_id: u32) -> (out: Vec<u8>)
    ensures
        out@ == trex_box(track_id),
{
    let mut body: Vec<u8> = word_bytes(track_id);
    bytes::put_u32(&mut body, 1);
    bytes::put_zeros(&mut body, 12);
    cmaf::make_full_box(&box_type::TREX, 0, 0, body.as_slice())
}

/// The file type of a synthesized init segment: brand isom, version 0x200, compatible with
/// isom, iso5, dash and cmfc.
pub open spec fn ftyp_payload() -> Seq<u8> {
    seq![
        0x69u8, 0x73u8, 0x6fu8, 0x6du8, 0x00u8, 0x00u8, 0x02u8, 0x00u8, 0x69u8, 0x73u8, 0x6fu8,
        0x6du8, 0x69u8, 0x73u8, 0x6fu8, 0x35u8, 0x64u8, 0x61u8, 0x73u8, 0x68u8, 0x63u8, 0x6du8,
        0x66u8, 0x63u8,
    ]
}

/// The content of an optional video configuration.
pub open spec fn opt_video(v: Option<&VideoConfig>) -> Option<VideoView> {
    match v {
        Some(config) => Some(config@),
        None => None,
    }
}

/// The content of an optional audio configuration.
pub open spec fn opt_audio(a: Option<&AudioConfig>) -> Option<AudioView> {
    match a {
        Some(config) => Some(config@),
        None => None,
    }
}

/// The movie box for the given tracks: video first, numbered from 1.
#[verifier::opaque]
pub open spec fn moov_payload(video: Option<VideoView>, audio: Option<AudioView>) -> Seq<u8> {
    match (video, audio) {
        (Some(v), Some(a)) => mvhd_box(90000) + video_trak(1, v) + audio_trak(2, a) + cmaf::boxed(
            box_type::MVEX@,
            trex_box(1) + trex_box(2),
        ),
        (Some(v), None) => mvhd_box(90000) + video_trak(1, v) + cmaf::boxed(
            box_type::MVEX@,
            trex_box(1),
        ),
        (None, Some(a)) => mvhd_box(90000) + audio_trak(1, a) + cmaf::boxed(
            box_type::MVEX@,
            trex_box(1),
        ),
        (None, None) => Seq::empty(),
    }
}

/// The init segment for the given tracks: file type and movie box.
pub open spec fn synthesized_init(video: Option<VideoView>, audio: Option<AudioView>) -> Result<
    Seq<u8>,
    ErrorView,
> {
    if video is None && audio is None {
        Err(
            ErrorView::MediaParse("cannot synthesize init segment without video or audio config"@),
        )
    } else {
        Ok(
            cmaf::boxed(box_type::FTYP@, ftyp_payload()) + cmaf::boxed(
                box_type::MOOV@,
                moov_payload(video, audio),
            ),
        )
    }
}

/// Synthesize a CMAF init segment (ftyp + moov) from extracted configs.
pub fn synthesize_init_segment(video: Option<&VideoConfig>, audio: Option<&AudioConfig>) -> (r:
    Result<Vec<u8>, EdgepackError>)
    ensures
        cmaf::outcome_view(r) == synthesized_init(opt_video(video), opt_audio(audio)),
{
    if video.is_none() && audio.is_none() {
        return Err(
            EdgepackError::media_parse(
                "cannot synthesize init segment without video or audio config",
            ),
        );
    }
    let brands: Vec<u8> = vec![
        0x69, 0x73, 0x6f, 0x6d, 0x00, 0x00, 0x02, 0x00, 0x69, 0x73, 0x6f, 0x6d, 0x69, 0x73, 0x6f,
        0x35, 0x64, 0x61, 0x73, 0x68, 0x63, 0x6d, 0x66, 0x63,
    ];
    assert(brands@ =~= ftyp_payload());
    let mut output: Vec<u8> = cmaf::make_box(&box_type::FTYP, brands.as_slice());
    let mut children: Vec<u8> = build_mvhd(90000);
    let mut mvex: Vec<u8> = build_trex(1);
    let mut track_id: u32 = 1;
    if let Some(config) = video {
        bytes::put_bytes(&mut children, build_video_trak(track_id, config).as_slice());
        track_id = track_id + 1;
    }
    if let Some(config) = audio {
        bytes::put_bytes(&mut children, build_audio_trak(track_id, config).as_slice());
        if track_id == 2 {
            bytes::put_bytes(&mut mvex, build_trex(2).as_slice());
        }
    }
    cmaf::put_box(&mut children, &box_type::MVEX, mvex.as_slice());
    assert(children@ == moov_payload(opt_video(video), opt_audio(audio))) by {
        reveal(moov_payload);
    }
    cmaf::put_box(&mut output, &box_type::MOOV, children.as_slice());
    Ok(output)
}

/// A movie fragment header.
pub open spec fn mfhd_box(sequence_number: u32) -> Seq<u8> {
    cmaf::full_boxed(box_type::MFHD@, 0, 0, bytes::bytes32(sequence_number))
}

/// Builds a movie fragment header.
pub fn build_mfhd(sequence_number: u32) -> (out: Vec<u8>)
    ensures
        out@ == mfhd_box(sequence_number),
{
    cmaf::make_full_box(&box_type::MFHD, 0, 0, word_bytes(sequence_number).as_slice())
}

/// A track fragment header whose base is the fragment.
pub open spec fn tfhd_box(track_id: u32) -> Seq<u8> {
    cmaf::full_boxed(box_type::TFHD@, 0, 0x2_0000, bytes::bytes32(track_id))
}

/// Builds a track fragment header.
pub fn build_tfhd(track_id: u32) -> (out: Vec<u8>)
    ensures
        out@ == tfhd_box(track_id),
{
    cmaf::make_full_box(&box_type::TFHD, 0, 0x2_0000, word_bytes(track_id).as_slice())
}

/// A track fragment decode time.
pub open spec fn tfdt_box(time: u64) -> Seq<u8> {
    cmaf::full_boxed(box_type::TFDT@, 1, 0, bytes::bytes64(time))
}

/// Builds a track fragment decode time.
pub fn build_tfdt(base_decode_time: u64) -> (out: Vec<u8>)
    ensures
        out@ == tfdt_box(base_decode_time),
{
    let mut body: Vec<u8> = Vec::new();
    bytes::put_u64(&mut body, base_decode_time);
    assert(body@ =~= bytes::bytes64(base_decode_time));
    cmaf::make_full_box(&box_type::TFDT, 1, 0, body.as_slice())
}

/// Durations, sizes and flags of the first `n` samples.
pub open spec fn video_runs(
    durations: Seq<u32>,
    sizes: Seq<u32>,
    flags: Seq<u32>,
    n: nat,
) -> Seq<u8>
    decreases n,
{
    if n == 0 {
        Seq::empty()
    } else {
        video_runs(durations, sizes, flags, (n - 1) as nat) + bytes::bytes32(durations[n - 1])
            + bytes::bytes32(sizes[n - 1]) + bytes::bytes32(flags[n - 1])
    }
}

/// A track run with the duration, size and flags of each sample; its data offset is zero.
pub open spec fn video_trun(durations: Seq<u32>, sizes: Seq<u32>, flags: Seq<u32>) -> Seq<u8> {
    cmaf::full_boxed(
        box_type::TRUN@,
        0,
        0x701,
        bytes::bytes32(durations.len() as u32) + bytes::zeros(4) + video_runs(
            durations,
            sizes,
            flags,
            durations.len(),
        ),
    )
}

/// Builds the track run of a video fragment.
pub fn build_video_trun(durations: &[u32], sizes: &[u32], flags: &[u32]) -> (out: Vec<u8>)
    requires
        durations@.len() <= sizes@.len(),
        durations@.len() <= flags@.len(),
    ensures
        out@ == video_trun(durations@, sizes@, flags@),
{
    let mut body: Vec<u8> = word_bytes(durations.len() as u32);
    bytes::put_zeros(&mut body, 4);
    let ghost head = body@;
    let mut i: usize = 0;
    assert(body@ =~= head + video_runs(durations@, sizes@, flags@, 0));
    while i < durations.len()
        invariant
            i <= durations.len(),
            durations@.len() <= sizes@.len(),
            durations@.len() <= flags@.len(),
            body@ == head + video_runs(durations@, sizes@, flags@, i as nat),
        decreases durations.len() - i,
    {
        bytes::put_u32(&mut body, durations[i]);
        bytes::put_u32(&mut body, sizes[i]);
        bytes::put_u32(&mut body, flags[i]);
        i = i + 1;
        assert(body@ =~= head + video_runs(durations@, sizes@, flags@, i as nat));
    }
    cmaf::make_full_box(&box_type::TRUN, 0, 0x701, body.as_slice())
}

/// Durations and sizes of the first `n` samples.
pub open spec fn audio_runs(durations: Seq<u32>, sizes: Seq<u32>, n: nat) -> Seq<u8>
    decreases n,
{
    if n == 0 {
        Seq::empty()
    } else {
        audio_runs(durations, sizes, (n - 1) as nat) + bytes::bytes32(durations[n - 1])
            + bytes::bytes32(sizes[n - 1])
    }
}

/// A track run with the duration and size of each sample; its data offset is zero.
pub open spec fn audio_trun(durations: Seq<u32>, sizes: Seq<u32>) -> Seq<u8> {
    cmaf::full_boxed(
        box_type::TRUN@,
        0,
        0x301,
        bytes::bytes32(durations.len() as u32) + bytes::zeros(4) + audio_runs(
            durations,
            sizes,
            durations.len(),
        ),
    )
}

/// Builds the track run of an audio fragment.
pub fn build_audio_trun(durations: &[u32], sizes: &[u32]) -> (out: Vec<u8>)
    requires
        durations@.len() <= sizes@.len(),
    ensures
        out@ == audio_trun(durations@, sizes@),
{
    let mut body: Vec<u8> = word_bytes(durations.len() as u32);
    bytes::put_zeros(&mut body, 4);
    let ghost head = body@;
    let mut i: usize = 0;
    assert(body@ =~= head + audio_runs(durations@, sizes@, 0));
    while i < durations.len()
        invariant
            i <= durations.len(),
            durations@.len() <= sizes@.len(),
            body@ == head + audio_runs(durations@, sizes@, i as nat),
        decreases durations.len() - i,
    {
        bytes::put_u32(&mut body, durations[i]);
        bytes::put_u32(&mut body, sizes[i]);
        i = i + 1;
        assert(body@ =~= head + audio_runs(durations@, sizes@, i as nat));
    }
    cmaf::make_full_box(&box_type::TRUN, 0, 0x301, body.as_slice())
}

/// A movie fragment with one track fragment: header, decode time and run.
pub open spec fn moof_box(sequence_number: u32, track_id: u32, time: u64, trun: Seq<u8>) -> Seq<
    u8,
> {
    cmaf::boxed(
        box_type::MOOF@,
        mfhd_box(sequence_number) + cmaf::boxed(
            box_type::TRAF@,
            tfhd_box(track_id) + tfdt_box(time) + trun,
        ),
    )
}

/// Builds a movie fragment with one track fragment.
fn build_moof(sequence_number: u32, track_id: u32, time: u64, trun: &[u8]) -> (out: Vec<u8>)
    ensures
        out@ == moof_box(sequence_number, track_id, time, trun@),
{
    let mut traf: Vec<u8> = build_tfhd(track_id);
    bytes::put_bytes(&mut traf, build_tfdt(time).as_slice());
    bytes::put_bytes(&mut traf, trun);
    let mut moof: Vec<u8> = build_mfhd(sequence_number);
    cmaf::put_box(&mut moof, &box_type::TRAF, traf.as_slice());
    cmaf::make_box(&box_type::MOOF, moof.as_slice())
}

/// The decode time of a packet: its DTS, else its PTS.
pub open spec fn time_of(p: PesView) -> Option<u64> {
    match p.dts {
        Some(t) => Some(t),
        None => p.pts,
    }
}

/// The decode time of the first packet; zero where it has none.
pub open spec fn base_time(packets: Seq<PesView>) -> u64 {
    if packets.len() == 0 {
        0
    } else {
        match time_of(packets[0]) {
            Some(t) => t,
            None => 0,
        }
    }
}

/// The duration of packet `i`: the time to the next packet, or 3003 ticks where the next
/// packet is missing or has no time.
pub open spec fn video_duration(packets: Seq<PesView>, i: int) -> u32 {
    let this = match time_of(packets[i]) {
        Some(t) => t,
        None => base_time(packets),
    };
    if i + 1 < packets.len() && time_of(packets[i + 1]) is Some {
        let next = time_of(packets[i + 1])->0;
        (if next > this {
            next - this
        } else {
            0
        }) as u32
    } else {
        3003
    }
}

/// The sample flags of a packet: a sync sample where it holds an IDR slice.
pub open spec fn video_flags(p: PesView) -> u32 {
    if idr_in(nals_of(p.data), 0) {
        0x0200_0000
    } else {
        0x0001_0000
    }
}

/// The sample data of the first `n` video packets.
pub open spec fn video_data(packets: Seq<PesView>, n: nat) -> Seq<u8>
    decreases n,
{
    if n == 0 {
        Seq::empty()
    } else {
        video_data(packets, (n - 1) as nat) + avcc_of(packets[n - 1].data)
    }
}

/// The movie fragment of a list of video packets.
pub open spec fn video_moof(packets: Seq<PesView>, sequence_number: u32, track_id: u32) -> Seq<u8> {
    moof_box(
        sequence_number,
        track_id,
        base_time(packets),
        video_trun(
            Seq::new(packets.len(), |i: int| video_duration(packets, i)),
            Seq::new(packets.len(), |i: int| avcc_of(packets[i].data).len() as u32),
            Seq::new(packets.len(), |i: int| video_flags(packets[i])),
        ),
    )
}

/// The decode time of a packet.
fn packet_time(p: &PesPacket) -> (t: Option<u64>)
    ensures
        t == time_of(p@),
{
    match p.dts {
        Some(t) => Some(t),
        None => p.pts,
    }
}

/// Builds the movie fragment and the sample data of a list of video packets.
pub fn build_video_fragment(packets: &[PesPacket], sequence_number: u32, track_id: u32) -> (out: (
    Vec<u8>,
    Vec<u8>,
))
    ensures
        out.0@ == video_moof(ts::pes_views(packets@), sequence_number, track_id),
        out.1@ == video_data(ts::pes_views(packets@), packets@.len()),
{
    let ghost views = ts::pes_views(packets@);
    let mut data: Vec<u8> = Vec::new();
    let mut sizes: Vec<u32> = Vec::new();
    let mut durations: Vec<u32> = Vec::new();
    let mut flags: Vec<u32> = Vec::new();
    let base_dts: u64 = if packets.len() == 0 {
        0
    } else {
        match packet_time(&packets[0]) {
            Some(t) => t,
            None => 0,
        }
    };
    let mut i: usize = 0;
    while i < packets.len()
        invariant
            i <= packets.len(),
            views == ts::pes_views(packets@),
            base_dts == base_time(views),
            data@ == video_data(views, i as nat),
            durations@ == Seq::new(i as nat, |k: int| video_duration(views, k)),
            sizes@ == Seq::new(i as nat, |k: int| avcc_of(views[k].data).len() as u32),
            flags@ == Seq::new(i as nat, |k: int| video_flags(views[k])),
        decreases packets.len() - i,
    {
        let pes: &PesPacket = &packets[i];
        assert(views[i as int] == pes@);
        let sample: Vec<u8> = convert_annexb_to_avcc(pes.data.as_slice());
        bytes::put_bytes(&mut data, sample.as_slice());
        sizes.push(sample.len() as u32);
        let this_dts: u64 = match packet_time(pes) {
            Some(t) => t,
            None => base_dts,
        };
        let next_dts: Option<u64> = if i + 1 < packets.len() {
            assert(views[i + 1] == packets@[i + 1]@);
            packet_time(&packets[i + 1])
        } else {
            None
        };
        let duration: u32 = match next_dts {
            Some(next) => if next > this_dts {
                (next - this_dts) as u32
            } else {
                0
            },
            None => 3003,
        };
        durations.push(duration);
        flags.push(
            if has_idr_nal(pes.data.as_slice()) {
                0x0200_0000
            } else {
                0x0001_0000
            },
        );
        i = i + 1;
        assert(durations@ =~= Seq::new(i as nat, |k: int| video_duration(views, k)));
        assert(sizes@ =~= Seq::new(i as nat, |k: int| avcc_of(views[k].data).len() as u32));
        assert(flags@ =~= Seq::new(i as nat, |k: int| video_flags(views[k])));
    }
    let trun: Vec<u8> = build_video_trun(
        durations.as_slice(),
        sizes.as_slice(),
        flags.as_slice(),
    );
    (build_moof(sequence_number, track_id, base_dts, trun.as_slice()), data)
}

/// The decode time of an audio fragment, in samples of the given rate.
pub open spec fn audio_time(packets: Seq<PesView>, rate: u32) -> u64 {
    let pts = if packets.len() == 0 {
        0
    } else {
        match packets[0].pts {
            Some(t) => t,
            None => 0,
        }
    };
    if rate > 0 {
        ((pts * rate) as nat / 90000) as u64
    } else {
        pts
    }
}

/// The sample data of the first `n` audio packets.
pub open spec fn audio_data(packets: Seq<PesView>, n: nat) -> Seq<u8>
    decreases n,
{
    if n == 0 {
        Seq::empty()
    } else {
        audio_data(packets, (n - 1) as nat) + adts_from(packets[n - 1].data, 0, Seq::empty())
    }
}

/// The movie fragment of a list of audio packets: 1024 samples each.
pub open spec fn audio_moof(
    packets: Seq<PesView>,
    sequence_number: u32,
    track_id: u32,
    rate: u32,
) -> Seq<u8> {
    moof_box(
        sequence_number,
        track_id,
        audio_time(packets, rate),
        audio_trun(
            Seq::new(packets.len(), |i: int| 1024u32),
            Seq::new(
                packets.len(),
                |i: int| adts_from(packets[i].data, 0, Seq::empty()).len() as u32,
            ),
        ),
    )
}

/// Builds the movie fragment and the sample data of a list of audio packets.
pub fn build_audio_fragment(
    packets: &[PesPacket],
    sequence_number: u32,
    track_id: u32,
    config: &AudioConfig,
) -> (out: (Vec<u8>, Vec<u8>))
    ensures
        out.0@ == audio_moof(
            ts::pes_views(packets@),
            sequence_number,
            track_id,
            config.sample_rate,
        ),
        out.1@ == audio_data(ts::pes_views(packets@), packets@.len()),
{
    let ghost views = ts::pes_views(packets@);
    let mut data: Vec<u8> = Vec::new();
    let mut sizes: Vec<u32> = Vec::new();
    let mut durations: Vec<u32> = Vec::new();
    let mut i: usize = 0;
    while i < packets.len()
        invariant
            i <= packets.len(),
            views == ts::pes_views(packets@),
            data@ == audio_data(views, i as nat),
            durations@ == Seq::new(i as nat, |k: int| 1024u32),
            sizes@ == Seq::new(
                i as nat,
                |k: int| adts_from(views[k].data, 0, Seq::empty()).len() as u32,
            ),
        decreases packets.len() - i,
    {
        let pes: &PesPacket = &packets[i];
        assert(views[i as int] == pes@);
        let frames: Vec<u8> = strip_adts_headers(pes.data.as_slice());
        bytes::put_bytes(&mut data, frames.as_slice());
        sizes.push(frames.len() as u32);
        durations.push(1024);
        i = i + 1;
        assert(durations@ =~= Seq::new(i as nat, |k: int| 1024u32));
        assert(sizes@ =~= Seq::new(
            i as nat,
            |k: int| adts_from(views[k].data, 0, Seq::empty()).len() as u32,
        ));
    }
    let trun: Vec<u8> = build_audio_trun(durations.as_slice(), sizes.as_slice());
    let base_pts: u64 = if packets.len() == 0 {
        0
    } else {
        match packets[0].pts {
            Some(t) => t,
            None => 0,
        }
    };
    let rate: u32 = config.sample_rate;
    let time: u64 = if rate > 0 {
        assert(base_pts * rate <= 0xFFFF_FFFF_FFFF_FFFF * 0xFFFF_FFFF) by (nonlinear_arith)
            requires
                base_pts <= 0xFFFF_FFFF_FFFF_FFFF,
                rate <= 0xFFFF_FFFF,
        ;
        (base_pts as u128 * rate as u128 / 90000) as u64
    } else {
        base_pts
    };
    (build_moof(sequence_number, track_id, time, trun.as_slice()), data)
}

/// A media segment: a fragment for the video packets, then one for the audio packets.
pub open spec fn transmuxed(
    video_packets: Seq<PesView>,
    audio_packets: Seq<PesView>,
    with_video: bool,
    audio: Option<AudioView>,
    sequence_number: u32,
) -> Result<Seq<u8>, ErrorView> {
    let video_part = if with_video && video_packets.len() > 0 {
        video_moof(video_packets, sequence_number, 1) + cmaf::boxed(
            box_type::MDAT@,
            video_data(video_packets, video_packets.len()),
        )
    } else {
        Seq::empty()
    };
    let audio_part = match audio {
        Some(a) if audio_packets.len() > 0 => audio_moof(
            audio_packets,
            sequence_number,
            if with_video {
                2
            } else {
                1
            },
            a.sample_rate,
        ) + cmaf::boxed(box_type::MDAT@, audio_data(audio_packets, audio_packets.len())),
        _ => Seq::empty(),
    };
    if (video_part + audio_part).len() == 0 {
        Err(ErrorView::MediaParse("no video or audio data to transmux"@))
    } else {
        Ok(video_part + audio_part)
    }
}

/// Transmux demuxed PES packets into a CMAF media segment (moof + mdat).
pub fn transmux_to_cmaf(
    segment: &DemuxedSegment,
    video_config: Option<&VideoConfig>,
    audio_config: Option<&AudioConfig>,
    sequence_number: u32,
) -> (r: Result<Vec<u8>, EdgepackError>)
    ensures
        cmaf::outcome_view(r) == transmuxed(
            segment@.video_packets,
            segment@.audio_packets,
            video_config is Some,
            opt_audio(audio_config),
            sequence_number,
        ),
{
    let mut output: Vec<u8> = Vec::new();
    assert(output@ =~= Seq::empty());
    if video_config.is_some() && segment.video_packets.len() > 0 {
        let (moof, data) = build_video_fragment(
            segment.video_packets.as_slice(),
            sequence_number,
            1,
        );
        output = moof;
        cmaf::put_box(&mut output, &box_type::MDAT, data.as_slice());
    }
    let ghost video_part = output@;
    assert(output@ =~= video_part + Seq::<u8>::empty());
    if let Some(config) = audio_config {
        if segment.audio_packets.len() > 0 {
            let track_id: u32 = if video_config.is_some() {
                2
            } else {
                1
            };
            let (moof, data) = build_audio_fragment(
                segment.audio_packets.as_slice(),
                sequence_number,
                track_id,
                config,
            );
            bytes::put_bytes(&mut output, moof.as_slice());
            cmaf::put_box(&mut output, &box_type::MDAT, data.as_slice());
            assert(output@ =~= video_part + (moof@ + cmaf::boxed(box_type::MDAT@, data@)));
        }
    }
    if output.len() == 0 {
        return Err(EdgepackError::media_parse("no video or audio data to transmux"));
    }
    Ok(output)
}

} // verus!
