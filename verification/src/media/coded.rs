//! Bit strings that were written are read: numbers, Exp-Golomb codes, and the size of a picture
//! in a sequence parameter set.

use crate::media::transmux;
use vstd::prelude::*;

verus! {

/// What bit `k` of a byte stands for, counted from the most significant one.
pub open spec fn place(k: int) -> nat {
    if k == 0 {
        128
    } else if k == 1 {
        64
    } else if k == 2 {
        32
    } else if k == 3 {
        16
    } else if k == 4 {
        8
    } else if k == 5 {
        4
    } else if k == 6 {
        2
    } else {
        1
    }
}

/// Bit `i` of a byte string.
pub open spec fn bit(s: Seq<u8>, i: int) -> bool {
    (s[i / 8] as nat / place(i % 8)) % 2 == 1
}

/// Whether a bit string stands at bit `p` of a byte string.
pub open spec fn written_at(s: Seq<u8>, p: int, bits: Seq<bool>) -> bool {
    &&& 0 <= p
    &&& p + bits.len() <= 8 * s.len()
    &&& forall|i: int| 0 <= i < bits.len() ==> bit(s, p + i) == #[trigger] bits[i]
}

/// A number in `len` bits, the most significant one first.
pub open spec fn binary(n: nat, len: nat) -> Seq<bool>
    decreases len,
{
    if len == 0 {
        Seq::empty()
    } else {
        binary(n / 2, (len - 1) as nat).push(n % 2 == 1)
    }
}

/// How many bits a positive number has behind its first.
pub open spec fn bits_behind(n: nat) -> nat
    decreases n,
{
    if n < 2 {
        0
    } else {
        1 + bits_behind(n / 2)
    }
}

/// A number as an Exp-Golomb code: as many zeros as the next number has bits behind its first,
/// then that next number.
pub open spec fn golomb(v: nat) -> Seq<bool> {
    let z = bits_behind(v + 1);
    Seq::new(z, |i: int| false) + binary(v + 1, z + 1)
}

/// Several Exp-Golomb codes.
pub open spec fn golombs(list: Seq<nat>) -> Seq<bool>
    decreases list.len(),
{
    if list.len() == 0 {
        Seq::empty()
    } else {
        golomb(list[0]) + golombs(list.drop_first())
    }
}

proof fn lemma_bit(s: Seq<u8>, p: int)
    requires
        0 <= p < 8 * s.len(),
    ensures
        transmux::bit_at(s, p) == (if bit(s, p) {
            1u8
        } else {
            0u8
        }),
        transmux::bit_next(s, p) == p + 1,
{
    let b = s[p / 8];
    assert((b >> 7u8) & 1 == (b / 128) % 2 && (b >> 6u8) & 1 == (b / 64) % 2 && (b >> 5u8) & 1 == (b
        / 32) % 2 && (b >> 4u8) & 1 == (b / 16) % 2 && (b >> 3u8) & 1 == (b / 8) % 2 && (b >> 2u8)
        & 1 == (b / 4) % 2 && (b >> 1u8) & 1 == (b / 2) % 2 && (b >> 0u8) & 1 == b % 2)
        by (bit_vector);
    let k = p % 8;
    assert(0 <= k < 8);
    assert(((7 - k) as u8) == 7 - k);
}

proof fn lemma_split(s: Seq<u8>, p: int, a: Seq<bool>, b: Seq<bool>)
    requires
        written_at(s, p, a + b),
    ensures
        written_at(s, p, a),
        written_at(s, (p + a.len()) as int, b),
{
    assert forall|i: int| 0 <= i < a.len() implies bit(s, p + i) == #[trigger] a[i] by {
        assert((a + b)[i] == a[i]);
    }
    assert forall|i: int| 0 <= i < b.len() implies bit(s, p + a.len() + i) == #[trigger] b[i] by {
        assert((a + b)[a.len() + i] == b[i]);
    }
}

proof fn lemma_one_more(s: Seq<u8>, p: int, n: nat, v: nat)
    requires
        0 <= p,
        p + n < 8 * s.len(),
    ensures
        transmux::bits_at(s, p, n, v).1 == p + n,
        transmux::bits_at(s, p, n + 1, v) == (
            (transmux::bits_at(s, p, n, v).0 * 2 + transmux::bit_at(s, (p + n) as int)) as nat,
            (p + n + 1) as int,
        ),
    decreases n,
{
    lemma_bit(s, p);
    if n > 0 {
        lemma_one_more(s, p + 1, (n - 1) as nat, v * 2 + transmux::bit_at(s, p) as nat);
    } else {
        reveal_with_fuel(transmux::bits_at, 2);
    }
}

proof fn lemma_two_to(n: nat)
    ensures
        transmux::two_to(n) > 0,
    decreases n,
{
    if n > 0 {
        lemma_two_to((n - 1) as nat);
    }
}

proof fn lemma_binary_len(n: nat, len: nat)
    ensures
        binary(n, len).len() == len,
    decreases len,
{
    if len > 0 {
        lemma_binary_len(n / 2, (len - 1) as nat);
    }
}

/// A number that was written in some bits is read from as many.
pub proof fn written_bits_are_read(s: Seq<u8>, p: int, n: nat, len: nat)
    requires
        written_at(s, p, binary(n, len)),
        n < transmux::two_to(len),
    ensures
        transmux::bits_at(s, p, len, 0) == (n, (p + len) as int),
    decreases len,
{
    lemma_binary_len(n, len);
    if len > 0 {
        let m = (len - 1) as nat;
        lemma_binary_len(n / 2, m);
        let last = seq![n % 2 == 1];
        assert(binary(n, len) =~= binary(n / 2, m) + last);
        lemma_split(s, p, binary(n / 2, m), last);
        written_bits_are_read(s, p, n / 2, m);
        lemma_one_more(s, p, m, 0);
        assert(last[0] == (n % 2 == 1));
        assert(bit(s, p + m + 0) == last[0]);
        lemma_bit(s, p + m);
    }
}

proof fn lemma_zeros(s: Seq<u8>, p: int, z: nat, c: nat)
    requires
        0 <= p,
        p + z < 8 * s.len(),
        forall|i: int| p <= i < p + z ==> !(#[trigger] bit(s, i)),
        bit(s, p + z),
        c + z <= 31,
    ensures
        transmux::zeros_at(s, p, c) == (Some(c + z), p + z + 1),
    decreases z,
{
    lemma_bit(s, p);
    if z > 0 {
        assert(!bit(s, p));
        lemma_zeros(s, p + 1, (z - 1) as nat, c + 1);
    }
}

proof fn lemma_behind(n: nat)
    requires
        n > 0,
    ensures
        transmux::two_to(bits_behind(n)) <= n < 2 * transmux::two_to(bits_behind(n)),
    decreases n,
{
    if n >= 2 {
        lemma_behind(n / 2);
    }
}

proof fn lemma_behind_small(n: nat, k: nat)
    requires
        0 < n < transmux::two_to(k),
    ensures
        bits_behind(n) < k,
    decreases k,
{
    if k > 0 && n >= 2 {
        lemma_behind_small(n / 2, (k - 1) as nat);
    }
}

/// A number with its first bit apart.
proof fn lemma_first_bit(n: nat, z: nat)
    requires
        transmux::two_to(z) <= n < 2 * transmux::two_to(z),
    ensures
        binary(n, z + 1) == seq![true] + binary((n - transmux::two_to(z)) as nat, z),
    decreases z,
{
    let r = (n - transmux::two_to(z)) as nat;
    if z > 0 {
        let m = (z - 1) as nat;
        lemma_first_bit(n / 2, m);
        assert(transmux::two_to(z) == 2 * transmux::two_to(m));
        assert(r / 2 == n / 2 - transmux::two_to(m));
        assert(r % 2 == n % 2);
        assert(binary(n, z + 1) =~= seq![true] + binary(r, z));
    } else {
        assert(n == 1);
        assert(binary(0, 0) =~= Seq::<bool>::empty());
        reveal_with_fuel(binary, 2);
        assert(binary(n, 1) =~= seq![true] + binary(r, 0));
    }
}

/// The largest number that a code holds.
pub open spec fn coded(v: nat) -> bool {
    v < 0xffff_ffff
}

/// A number that was written as an Exp-Golomb code is read from it.
#[verifier::rlimit(40)]
pub proof fn written_codes_are_read(s: Seq<u8>, p: int, v: nat)
    requires
        written_at(s, p, golomb(v)),
        coded(v),
    ensures
        transmux::golomb_at(s, p) == (v, (p + golomb(v).len()) as int),
{
    let n = v + 1;
    let z = bits_behind(n);
    lemma_behind(n);
    assert(transmux::two_to(32) == 0x1_0000_0000) by {
        reveal_with_fuel(transmux::two_to, 33);
    }
    lemma_behind_small(n, 32);
    lemma_first_bit(n, z);
    let r = (n - transmux::two_to(z)) as nat;
    let zeros = Seq::new(z, |i: int| false);
    lemma_binary_len(r, z);
    lemma_binary_len(n, z + 1);
    lemma_split(s, p, zeros, binary(n, z + 1));
    assert forall|i: int| p <= i < p + z implies !(#[trigger] bit(s, i)) by {
        assert(zeros[i - p] == false);
        assert(bit(s, p + (i - p)) == zeros[i - p]);
    }
    lemma_split(s, p + z, seq![true], binary(r, z));
    assert(seq![true][0]);
    assert(bit(s, p + z + 0) == seq![true][0]);
    lemma_zeros(s, p, z, 0);
    written_bits_are_read(s, p + z + 1, r, z);
}

proof fn lemma_golombs(s: Seq<u8>, p: int, list: Seq<nat>)
    requires
        written_at(s, p, golombs(list)),
        forall|i: int| 0 <= i < list.len() ==> coded(#[trigger] list[i]),
    ensures
        transmux::golombs_end(s, p, list.len()) == p + golombs(list).len(),
    decreases list.len(),
{
    if list.len() > 0 {
        lemma_split(s, p, golomb(list[0]), golombs(list.drop_first()));
        written_codes_are_read(s, p, list[0]);
        lemma_golombs(s, (p + golomb(list[0]).len()) as int, list.drop_first());
    }
}

proof fn lemma_skip(s: Seq<u8>, p: int, n: nat)
    requires
        0 <= p,
        p + n <= 8 * s.len(),
    ensures
        transmux::skipped(s, p, n) == p + n,
    decreases n,
{
    if n > 0 {
        lemma_bit(s, p);
        lemma_skip(s, p + 1, (n - 1) as nat);
    }
}

// Sequence parameter sets.

/// How pictures are counted.
pub enum Order {
    /// By a number of so many bits more than four.
    Counted { bits: nat },
    /// In a cycle: whether there are no offsets, two offsets, and those of the cycle.
    Cycle { flag: bool, offset: nat, field_offset: nat, cycle: Seq<nat> },
    /// As they are shown.
    AsShown,
}

/// What a sequence parameter set says, up to the size of the picture.
pub struct SpsFields {
    pub header: nat,
    pub profile: nat,
    pub constraints: nat,
    pub level: nat,
    pub id: nat,
    pub chroma: nat,
    pub separate: bool,
    pub luma_depth: nat,
    pub chroma_depth: nat,
    pub bypass: bool,
    pub frame_bits: nat,
    pub order: Order,
    pub references: nat,
    pub gaps: bool,
    /// How many macroblocks a picture is wide.
    pub columns: nat,
    /// How many rows of map units a picture is high.
    pub rows: nat,
    /// Whether every picture is a frame; else a map unit stands for one row of each field.
    pub frames_only: bool,
}

pub open spec fn order_bits(o: Order) -> Seq<bool> {
    match o {
        Order::Counted { bits } => golomb(0) + golomb(bits),
        Order::Cycle { flag, offset, field_offset, cycle } => golomb(1) + (seq![flag] + (golombs(
            seq![offset, field_offset],
        ) + (golomb(cycle.len()) + golombs(cycle)))),
        Order::AsShown => golomb(2),
    }
}

/// Whether a profile says how colours are coded.
pub open spec fn tells_colours(profile: nat) -> bool {
    seq![100nat, 110, 122, 244, 44, 83, 86, 118, 128].contains(profile)
}

/// How colours are coded, without scaling lists.
pub open spec fn colour_bits(f: SpsFields) -> Seq<bool> {
    if !tells_colours(f.profile) {
        Seq::empty()
    } else {
        golomb(f.chroma) + ((if f.chroma == 3 {
            seq![f.separate]
        } else {
            Seq::empty()
        }) + (golombs(seq![f.luma_depth, f.chroma_depth]) + seq![f.bypass, false]))
    }
}

/// The size of the picture.
pub open spec fn size_bits(f: SpsFields) -> Seq<bool> {
    golomb((f.columns - 1) as nat) + (golomb((f.rows - 1) as nat) + seq![f.frames_only])
}

/// A sequence parameter set up to the size of the picture, bit by bit.
pub open spec fn sps_bits(f: SpsFields) -> Seq<bool> {
    binary(f.header, 8) + (binary(f.profile, 8) + (binary(f.constraints, 8) + (binary(f.level, 8) + (
    golomb(f.id) + (colour_bits(f) + (golomb(f.frame_bits) + (order_bits(f.order) + (golomb(
        f.references,
    ) + (seq![f.gaps] + size_bits(f))))))))))
}

pub open spec fn order_fits(o: Order) -> bool {
    match o {
        Order::Counted { bits } => coded(bits),
        Order::Cycle { flag, offset, field_offset, cycle } => {
            &&& coded(offset)
            &&& coded(field_offset)
            &&& coded(cycle.len())
            &&& forall|i: int| 0 <= i < cycle.len() ==> coded(#[trigger] cycle[i])
        },
        Order::AsShown => true,
    }
}

pub open spec fn sps_fits(f: SpsFields) -> bool {
    &&& f.header < 256
    &&& f.profile < 256
    &&& f.constraints < 256
    &&& f.level < 256
    &&& coded(f.id)
    &&& coded(f.chroma)
    &&& coded(f.luma_depth)
    &&& coded(f.chroma_depth)
    &&& coded(f.frame_bits)
    &&& order_fits(f.order)
    &&& coded(f.references)
    &&& 1 <= f.columns <= 4095
    &&& 1 <= f.rows <= 2047
}

#[verifier::rlimit(40)]
proof fn lemma_order(s: Seq<u8>, p: int, o: Order)
    requires
        written_at(s, p, order_bits(o)),
        order_fits(o),
    ensures
        transmux::poc_end(s, p) == p + order_bits(o).len(),
{
    match o {
        Order::Counted { bits } => {
            lemma_split(s, p, golomb(0), golomb(bits));
            written_codes_are_read(s, p, 0);
            written_codes_are_read(s, (p + golomb(0).len()) as int, bits);
        },
        Order::Cycle { flag, offset, field_offset, cycle } => {
            let two = seq![offset, field_offset];
            let rest = golomb(cycle.len()) + golombs(cycle);
            lemma_split(s, p, golomb(1), seq![flag] + (golombs(two) + rest));
            written_codes_are_read(s, p, 1);
            let q = (p + golomb(1).len()) as int;
            lemma_split(s, q, seq![flag], golombs(two) + rest);
            lemma_skip(s, q, 1);
            lemma_split(s, q + 1, golombs(two), rest);
            lemma_golombs(s, q + 1, two);
            let r = (q + 1 + golombs(two).len()) as int;
            lemma_split(s, r, golomb(cycle.len()), golombs(cycle));
            written_codes_are_read(s, r, cycle.len());
            lemma_golombs(s, (r + golomb(cycle.len()).len()) as int, cycle);
        },
        Order::AsShown => {
            written_codes_are_read(s, p, 2);
        },
    }
}

#[verifier::rlimit(40)]
proof fn lemma_colours(s: Seq<u8>, p: int, f: SpsFields)
    requires
        written_at(s, p, colour_bits(f)),
        sps_fits(f),
        tells_colours(f.profile),
    ensures
        transmux::chroma_end(s, p) == p + colour_bits(f).len(),
{
    let separate = if f.chroma == 3 {
        seq![f.separate]
    } else {
        Seq::empty()
    };
    let two = seq![f.luma_depth, f.chroma_depth];
    let last = seq![f.bypass, false];
    lemma_split(s, p, golomb(f.chroma), separate + (golombs(two) + last));
    written_codes_are_read(s, p, f.chroma);
    let q = (p + golomb(f.chroma).len()) as int;
    lemma_split(s, q, separate, golombs(two) + last);
    if f.chroma == 3 {
        lemma_skip(s, q, 1);
    }
    let r = (q + separate.len()) as int;
    lemma_split(s, r, golombs(two), last);
    lemma_golombs(s, r, two);
    let t = (r + golombs(two).len()) as int;
    lemma_skip(s, t, 1);
    assert(last[1] == false);
    assert(bit(s, t + 1) == last[1]);
    lemma_bit(s, t + 1);
    lemma_one_more(s, t + 1, 0, 0);
}

proof fn lemma_size(s: Seq<u8>, p: int, f: SpsFields)
    requires
        written_at(s, p, size_bits(f)),
        sps_fits(f),
    ensures
        transmux::golomb_at(s, p).0 == f.columns - 1,
        transmux::golomb_at(s, transmux::golomb_at(s, p).1).0 == f.rows - 1,
        transmux::bits_at(
            s,
            transmux::golomb_at(s, transmux::golomb_at(s, p).1).1,
            1,
            0,
        ).0 == (if f.frames_only {
            1nat
        } else {
            0nat
        }),
{
    let w = (f.columns - 1) as nat;
    let h = (f.rows - 1) as nat;
    let last = seq![f.frames_only];
    lemma_split(s, p, golomb(w), golomb(h) + last);
    written_codes_are_read(s, p, w);
    let q = (p + golomb(w).len()) as int;
    lemma_split(s, q, golomb(h), last);
    written_codes_are_read(s, q, h);
    let r = (q + golomb(h).len()) as int;
    assert(last[0] == f.frames_only);
    assert(bit(s, r + 0) == last[0]);
    lemma_bit(s, r);
    lemma_one_more(s, r, 0, 0);
}

/// The size that a sequence parameter set gives a picture is read: sixteen points for each
/// column, and sixteen for each row, or twice as many where a row stands for one of each field.
#[verifier::spinoff_prover]
#[verifier::rlimit(80)]
pub proof fn written_sizes_are_read(s: Seq<u8>, f: SpsFields)
    requires
        written_at(s, 0, sps_bits(f)),
        sps_fits(f),
    ensures
        transmux::sps_dimensions(s).0 == 16 * f.columns,
        transmux::sps_dimensions(s).1 == (if f.frames_only {
            16 * f.rows
        } else {
            32 * f.rows
        }),
{
    let b9 = seq![f.gaps] + size_bits(f);
    let b8 = golomb(f.references) + b9;
    let b7 = order_bits(f.order) + b8;
    let b6 = golomb(f.frame_bits) + b7;
    let b5 = colour_bits(f) + b6;
    let b4 = golomb(f.id) + b5;
    let b3 = binary(f.level, 8) + b4;
    let b2 = binary(f.constraints, 8) + b3;
    let b1 = binary(f.profile, 8) + b2;
    lemma_binary_len(f.header, 8);
    lemma_binary_len(f.profile, 8);
    lemma_binary_len(f.constraints, 8);
    lemma_binary_len(f.level, 8);
    assert(transmux::two_to(8) == 256) by {
        reveal_with_fuel(transmux::two_to, 9);
    }
    lemma_split(s, 0, binary(f.header, 8), b1);
    lemma_skip(s, 0, 8);
    lemma_split(s, 8, binary(f.profile, 8), b2);
    written_bits_are_read(s, 8, f.profile, 8);
    lemma_split(s, 16, binary(f.constraints, 8), b3);
    lemma_skip(s, 16, 8);
    lemma_split(s, 24, binary(f.level, 8), b4);
    lemma_skip(s, 24, 8);
    lemma_split(s, 32, golomb(f.id), b5);
    written_codes_are_read(s, 32, f.id);
    let p2 = (32 + golomb(f.id).len()) as int;
    lemma_split(s, p2, colour_bits(f), b6);
    lemma_profiles(f.profile);
    if tells_colours(f.profile) {
        lemma_colours(s, p2, f);
    }
    let p3 = (p2 + colour_bits(f).len()) as int;
    lemma_split(s, p3, golomb(f.frame_bits), b7);
    written_codes_are_read(s, p3, f.frame_bits);
    let q3 = (p3 + golomb(f.frame_bits).len()) as int;
    lemma_split(s, q3, order_bits(f.order), b8);
    lemma_order(s, q3, f.order);
    let p4 = (q3 + order_bits(f.order).len()) as int;
    lemma_split(s, p4, golomb(f.references), b9);
    written_codes_are_read(s, p4, f.references);
    let q4 = (p4 + golomb(f.references).len()) as int;
    lemma_split(s, q4, seq![f.gaps], size_bits(f));
    lemma_skip(s, q4, 1);
    lemma_size(s, q4 + 1, f);
    lemma_golomb_len(f.id);
    assert(s.len() >= 5);
    let only: nat = if f.frames_only {
        1
    } else {
        0
    };
    assert((2 - only) * (((f.rows - 1) as nat + 1) * 16) == (if f.frames_only {
        16 * f.rows
    } else {
        32 * f.rows
    })) by (nonlinear_arith)
        requires
            only == (if f.frames_only {
                1nat
            } else {
                0nat
            }),
            f.rows >= 1,
    ;
}

proof fn lemma_golomb_len(v: nat)
    ensures
        golomb(v).len() > 0,
{
    lemma_binary_len(v + 1, bits_behind(v + 1) + 1);
}

proof fn lemma_profiles(profile: nat)
    ensures
        transmux::high_profile(profile) == tells_colours(profile),
{
    let list = seq![100nat, 110, 122, 244, 44, 83, 86, 118, 128];
    assert(list[0] == 100 && list[1] == 110 && list[2] == 122 && list[3] == 244 && list[4] == 44
        && list[5] == 83 && list[6] == 86 && list[7] == 118 && list[8] == 128);
}

} // verus!
