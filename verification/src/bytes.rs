//! Big-endian integers in byte sequences.

use vstd::prelude::*;

verus! {

/// The 16-bit big-endian integer at position `i`.
pub open spec fn be16(s: Seq<u8>, i: int) -> u16 {
    (s[i] * 0x100 + s[i + 1]) as u16
}

/// The 24-bit big-endian integer at position `i`.
pub open spec fn be24(s: Seq<u8>, i: int) -> u32 {
    (s[i] * 0x1_0000 + s[i + 1] * 0x100 + s[i + 2]) as u32
}

/// The 32-bit big-endian integer at position `i`.
pub open spec fn be32(s: Seq<u8>, i: int) -> u32 {
    (s[i] * 0x100_0000 + s[i + 1] * 0x1_0000 + s[i + 2] * 0x100 + s[i + 3]) as u32
}

/// The 64-bit big-endian integer at position `i`.
pub open spec fn be64(s: Seq<u8>, i: int) -> u64 {
    (be32(s, i) * 0x1_0000_0000 + be32(s, i + 4)) as u64
}

/// A 16-bit integer as two bytes, most significant first.
pub open spec fn bytes16(v: u16) -> Seq<u8> {
    seq![(v / 0x100) as u8, (v % 0x100) as u8]
}

/// The low 24 bits of an integer as three bytes, most significant first.
pub open spec fn bytes24(v: u32) -> Seq<u8> {
    seq![((v / 0x1_0000) % 0x100) as u8, ((v / 0x100) % 0x100) as u8, (v % 0x100) as u8]
}

/// A 32-bit integer as four bytes, most significant first.
pub open spec fn bytes32(v: u32) -> Seq<u8> {
    seq![
        (v / 0x100_0000) as u8,
        ((v / 0x1_0000) % 0x100) as u8,
        ((v / 0x100) % 0x100) as u8,
        (v % 0x100) as u8,
    ]
}

/// A 64-bit integer as eight bytes, most significant first.
pub open spec fn bytes64(v: u64) -> Seq<u8> {
    bytes32((v / 0x1_0000_0000) as u32) + bytes32((v % 0x1_0000_0000) as u32)
}

/// A sequence of `n` zero bytes.
pub open spec fn zeros(n: nat) -> Seq<u8> {
    Seq::new(n, |i: int| 0u8)
}

/// The part of `s` from `from` (inclusive) to `to` (exclusive), with both ends
/// moved into range first.
pub open spec fn clamped(s: Seq<u8>, from: int, to: int) -> Seq<u8> {
    let end = if to > s.len() { s.len() as int } else { to };
    if 0 <= from && from <= end {
        s.subrange(from, end)
    } else {
        Seq::empty()
    }
}

pub fn read_u16(data: &[u8], i: usize) -> (v: u16)
    requires
        i + 2 <= data@.len(),
    ensures
        v == be16(data@, i as int),
{
    (data[i] as u16) * 0x100 + (data[i + 1] as u16)
}

pub fn read_u24(data: &[u8], i: usize) -> (v: u32)
    requires
        i + 3 <= data@.len(),
    ensures
        v == be24(data@, i as int),
{
    (data[i] as u32) * 0x1_0000 + (data[i + 1] as u32) * 0x100 + (data[i + 2] as u32)
}

pub fn read_u32(data: &[u8], i: usize) -> (v: u32)
    requires
        i + 4 <= data@.len(),
    ensures
        v == be32(data@, i as int),
{
    (data[i] as u32) * 0x100_0000 + (data[i + 1] as u32) * 0x1_0000 + (data[i + 2] as u32) * 0x100
        + (data[i + 3] as u32)
}

pub fn read_u64(data: &[u8], i: usize) -> (v: u64)
    requires
        i + 8 <= data.len(),
    ensures
        v == be64(data@, i as int),
{
    let high: u32 = read_u32(data, i);
    let low: u32 = read_u32(data, i + 4);
    (high as u64) * 0x1_0000_0000 + (low as u64)
}

pub fn put_u16(out: &mut Vec<u8>, v: u16)
    ensures
        final(out)@ == old(out)@ + bytes16(v),
{
    out.push((v / 0x100) as u8);
    out.push((v % 0x100) as u8);
    assert(out@ =~= old(out)@ + bytes16(v));
}

pub fn put_u24(out: &mut Vec<u8>, v: u32)
    ensures
        final(out)@ == old(out)@ + bytes24(v),
{
    out.push(((v / 0x1_0000) % 0x100) as u8);
    out.push(((v / 0x100) % 0x100) as u8);
    out.push((v % 0x100) as u8);
    assert(out@ =~= old(out)@ + bytes24(v));
}

pub fn put_u32(out: &mut Vec<u8>, v: u32)
    ensures
        final(out)@ == old(out)@ + bytes32(v),
{
    out.push((v / 0x100_0000) as u8);
    out.push(((v / 0x1_0000) % 0x100) as u8);
    out.push(((v / 0x100) % 0x100) as u8);
    out.push((v % 0x100) as u8);
    assert(out@ =~= old(out)@ + bytes32(v));
}

pub fn put_u64(out: &mut Vec<u8>, v: u64)
    ensures
        final(out)@ == old(out)@ + bytes64(v),
{
    put_u32(out, (v / 0x1_0000_0000) as u32);
    put_u32(out, (v % 0x1_0000_0000) as u32);
    assert(out@ =~= old(out)@ + bytes64(v));
}

/// Appends a copy of `src`.
pub fn put_bytes(out: &mut Vec<u8>, src: &[u8])
    ensures
        final(out)@ == old(out)@ + src@,
{
    out.extend_from_slice(src);
    assert(out@ =~= old(out)@ + src@);
}

/// Appends `n` zero bytes.
pub fn put_zeros(out: &mut Vec<u8>, n: usize)
    ensures
        final(out)@ == old(out)@ + zeros(n as nat),
{
    let mut i: usize = 0;
    while i < n
        invariant
            i <= n,
            out@ == old(out)@ + zeros(i as nat),
        decreases n - i,
    {
        out.push(0);
        i = i + 1;
        assert(out@ =~= old(out)@ + zeros(i as nat));
    }
}

/// The part of `data` from `from` to `to`, with both ends moved into range.
pub fn slice_clamped<'a>(data: &'a [u8], from: usize, to: usize) -> (part: &'a [u8])
    ensures
        part@ == clamped(data@, from as int, to as int),
{
    let end: usize = if to > data.len() { data.len() } else { to };
    if from <= end {
        &data[from..end]
    } else {
        let none: &'a [u8] = &data[0..0];
        assert(none@ =~= Seq::<u8>::empty());
        none
    }
}

/// Copies a slice into a vector.
pub fn to_vec(data: &[u8]) -> (v: Vec<u8>)
    ensures
        v@ == data@,
{
    let mut v: Vec<u8> = Vec::new();
    put_bytes(&mut v, data);
    assert(v@ =~= data@);
    v
}

/// Whether two byte slices hold the same bytes.
pub fn same_bytes(a: &[u8], b: &[u8]) -> (same: bool)
    ensures
        same == (a@ == b@),
{
    if a.len() != b.len() {
        return false;
    }
    let mut i: usize = 0;
    while i < a.len()
        invariant
            i <= a@.len(),
            a@.len() == b@.len(),
            forall|k: int| 0 <= k < i ==> a@[k] == b@[k],
        decreases a@.len() - i,
    {
        if a[i] != b[i] {
            assert(a@[i as int] != b@[i as int]);
            return false;
        }
        i = i + 1;
    }
    assert(a@ =~= b@);
    true
}

/// The sixteen bytes of `data` that start at `from`.
pub fn read_16(data: &[u8], from: usize) -> (out: [u8; 16])
    requires
        from + 16 <= data@.len(),
    ensures
        out@ == data@.subrange(from as int, from + 16),
{
    let mut out: [u8; 16] = [0u8; 16];
    let mut i: usize = 0;
    while i < 16
        invariant
            i <= 16,
            from + 16 <= data.len(),
            data.len() == data@.len(),
            forall|k: int| 0 <= k < i ==> out@[k] == data@[from + k],
        decreases 16 - i,
    {
        out[i] = data[from + i];
        i = i + 1;
    }
    assert(out@ =~= data@.subrange(from as int, from + 16));
    out
}

/// The four bytes of `data` that start at `from`.
pub fn read_4(data: &[u8], from: usize) -> (out: [u8; 4])
    requires
        from + 4 <= data@.len(),
    ensures
        out@ == data@.subrange(from as int, from + 4),
{
    let out: [u8; 4] = [data[from], data[from + 1], data[from + 2], data[from + 3]];
    assert(out@ =~= data@.subrange(from as int, from + 4));
    out
}

/// Reading back what [`bytes32`] wrote gives the integer.
pub proof fn lemma_be32_of_bytes32(s: Seq<u8>, i: int, v: u32)
    requires
        0 <= i,
        i + 4 <= s.len(),
        s.subrange(i, i + 4) == bytes32(v),
    ensures
        be32(s, i) == v,
{
    let t = s.subrange(i, i + 4);
    assert(t[0] == s[i] && t[1] == s[i + 1] && t[2] == s[i + 2] && t[3] == s[i + 3]);
}

#[verifier::spinoff_prover]
#[verifier::rlimit(60)]
proof fn lemma_digits(a: int, b: int, c: int, d: int)
    requires
        0 <= a < 0x100,
        0 <= b < 0x100,
        0 <= c < 0x100,
        0 <= d < 0x100,
    ensures
        ({
            let v = a * 0x100_0000 + b * 0x1_0000 + c * 0x100 + d;
            &&& v <= u32::MAX
            &&& v / 0x100_0000 == a
            &&& (v / 0x1_0000) % 0x100 == b
            &&& (v / 0x100) % 0x100 == c
            &&& v % 0x100 == d
        }),
{
}

/// Writing what [`be32`] reads gives the bytes back.
pub proof fn lemma_bytes32_of_be32(s: Seq<u8>, i: int)
    requires
        0 <= i,
        i + 4 <= s.len(),
    ensures
        bytes32(be32(s, i)) == s.subrange(i, i + 4),
{
    lemma_digits(s[i] as int, s[i + 1] as int, s[i + 2] as int, s[i + 3] as int);
    assert(bytes32(be32(s, i)) =~= s.subrange(i, i + 4));
}

/// Reading back what [`bytes16`] wrote gives the integer.
pub proof fn lemma_be16_of_bytes16(s: Seq<u8>, i: int, v: u16)
    requires
        0 <= i,
        i + 2 <= s.len(),
        s.subrange(i, i + 2) == bytes16(v),
    ensures
        be16(s, i) == v,
{
    let t = s.subrange(i, i + 2);
    assert(t[0] == s[i] && t[1] == s[i + 1]);
}

/// Reading back what [`bytes64`] wrote gives the integer.
pub proof fn lemma_be64_of_bytes64(s: Seq<u8>, i: int, v: u64)
    requires
        0 <= i,
        i + 8 <= s.len(),
        s.subrange(i, i + 8) == bytes64(v),
    ensures
        be64(s, i) == v,
{
    let t = s.subrange(i, i + 8);
    assert(s.subrange(i, i + 4) =~= t.subrange(0, 4));
    assert(s.subrange(i + 4, i + 8) =~= t.subrange(4, 8));
    assert(bytes64(v).subrange(0, 4) =~= bytes32((v / 0x1_0000_0000) as u32));
    assert(bytes64(v).subrange(4, 8) =~= bytes32((v % 0x1_0000_0000) as u32));
    lemma_be32_of_bytes32(s, i, (v / 0x1_0000_0000) as u32);
    lemma_be32_of_bytes32(s, i + 4, (v % 0x1_0000_0000) as u32);
}

} // verus!
