//! Records that were written field by field are read back.

use crate::bytes;
use crate::decimal;
use crate::error::ErrorView;
use crate::media::cmaf;
use crate::media::cmaf::{SidxReference, SidxView, TencView, TrunEntry, TrunView};
use crate::media::round_trip;
use crate::media::scte35;
use crate::media::scte35::Scte35SpliceInfo;
use vstd::prelude::*;

verus! {

// Track runs.

/// A field of 32 bits, where it is there.
pub open spec fn field(v: Option<u32>) -> Seq<u8> {
    match v {
        Some(x) => bytes::bytes32(x),
        None => Seq::empty(),
    }
}

/// A signed number as the unsigned one with the same bits.
pub open spec fn bits_of(v: Option<i32>) -> Option<u32> {
    match v {
        Some(x) => Some(x as u32),
        None => None,
    }
}

/// A sample of a track run: duration, size, flags and composition offset, those that are there.
pub open spec fn run_fields(e: TrunEntry) -> Seq<u8> {
    field(e.sample_duration) + field(e.sample_size) + field(e.sample_flags) + field(
        bits_of(e.sample_composition_time_offset),
    )
}

/// The first `n` samples of a track run.
pub open spec fn run_fields_of(entries: Seq<TrunEntry>, n: nat) -> Seq<u8>
    decreases n,
{
    if n == 0 {
        Seq::empty()
    } else {
        run_fields_of(entries, (n - 1) as nat) + run_fields(entries[n - 1])
    }
}

/// Whether the flags of a track run say which fields it has.
pub open spec fn flags_say(v: TrunView) -> bool {
    &&& v.flags < 0x100_0000
    &&& (v.flags & 0x0001 != 0) == (v.data_offset is Some)
    &&& (v.flags & 0x0004 != 0) == (v.first_sample_flags is Some)
    &&& v.sample_count == v.entries.len()
    &&& forall|k: int|
        0 <= k < v.entries.len() ==> {
            let e = #[trigger] v.entries[k];
            &&& (v.flags & 0x0100 != 0) == (e.sample_duration is Some)
            &&& (v.flags & 0x0200 != 0) == (e.sample_size is Some)
            &&& (v.flags & 0x0400 != 0) == (e.sample_flags is Some)
            &&& (v.flags & 0x0800 != 0) == (e.sample_composition_time_offset is Some)
        }
}

/// A track run: version, flags, count, data offset, flags of the first sample, and the samples.
pub open spec fn run_record(version: u8, v: TrunView) -> Seq<u8> {
    seq![version] + bytes::bytes24(v.flags) + bytes::bytes32(v.sample_count) + field(
        bits_of(v.data_offset),
    ) + field(v.first_sample_flags) + run_fields_of(v.entries, v.entries.len())
}

/// Whether `x` stands at `i`.
spec fn stands(s: Seq<u8>, i: int, x: Seq<u8>) -> bool {
    0 <= i && i + x.len() <= s.len() && s.subrange(i, i + x.len()) == x
}

proof fn lemma_stands_part(s: Seq<u8>, i: int, a: Seq<u8>, b: Seq<u8>)
    requires
        stands(s, i, a + b),
    ensures
        stands(s, i, a),
        stands(s, i + a.len(), b),
{
    let x = s.subrange(i, i + (a + b).len());
    assert(s.subrange(i, i + a.len()) =~= x.subrange(0, a.len() as int));
    assert(x.subrange(0, a.len() as int) =~= a);
    assert(s.subrange(i + a.len(), i + a.len() + b.len()) =~= x.subrange(
        a.len() as int,
        (a + b).len() as int,
    ));
    assert(x.subrange(a.len() as int, (a + b).len() as int) =~= b);
}

proof fn lemma_field(s: Seq<u8>, i: int, v: Option<u32>, present: bool, message: &str)
    requires
        stands(s, i, field(v)),
        present == (v is Some),
    ensures
        cmaf::trun_field(s, i, present, message) == Ok::<(Option<u32>, int), ErrorView>(
            (v, (i + field(v).len()) as int),
        ),
{
    if let Some(x) = v {
        bytes::lemma_be32_of_bytes32(s, i, x);
    }
}

proof fn lemma_signed(v: Option<i32>)
    ensures
        cmaf::signed(bits_of(v)) == v,
{
    if let Some(x) = v {
        assert((x as u32) as i32 == x) by (bit_vector);
    }
}

#[verifier::rlimit(60)]
proof fn lemma_entry(s: Seq<u8>, flags: u32, i: int, e: TrunEntry)
    requires
        stands(s, i, run_fields(e)),
        (flags & 0x0100 != 0) == (e.sample_duration is Some),
        (flags & 0x0200 != 0) == (e.sample_size is Some),
        (flags & 0x0400 != 0) == (e.sample_flags is Some),
        (flags & 0x0800 != 0) == (e.sample_composition_time_offset is Some),
    ensures
        cmaf::trun_entry(s, flags, i) == Ok::<(TrunEntry, int), ErrorView>(
            (e, (i + run_fields(e).len()) as int),
        ),
{
    let a = field(e.sample_duration);
    let b = field(e.sample_size);
    let c = field(e.sample_flags);
    let d = field(bits_of(e.sample_composition_time_offset));
    lemma_stands_part(s, i, a + b + c, d);
    lemma_stands_part(s, i, a + b, c);
    lemma_stands_part(s, i, a, b);
    lemma_field(
        s,
        i,
        e.sample_duration,
        flags & 0x0100 != 0,
        "trun: not enough data for sample_duration",
    );
    lemma_field(
        s,
        (i + a.len()) as int,
        e.sample_size,
        flags & 0x0200 != 0,
        "trun: not enough data for sample_size",
    );
    lemma_field(
        s,
        (i + a.len() + b.len()) as int,
        e.sample_flags,
        flags & 0x0400 != 0,
        "trun: not enough data for sample_flags",
    );
    lemma_field(
        s,
        (i + a.len() + b.len() + c.len()) as int,
        bits_of(e.sample_composition_time_offset),
        flags & 0x0800 != 0,
        "trun: not enough data for composition_time_offset",
    );
    lemma_signed(e.sample_composition_time_offset);
}

proof fn lemma_run_splits(entries: Seq<TrunEntry>, k: nat, n: nat)
    requires
        k < n <= entries.len(),
    ensures
        stands(
            run_fields_of(entries, n),
            run_fields_of(entries, k).len() as int,
            run_fields(entries[k as int]),
        ),
    decreases n,
{
    let all = run_fields_of(entries, n);
    let at = run_fields_of(entries, k).len() as int;
    let x = run_fields(entries[k as int]);
    if k + 1 == n {
        assert(all.subrange(at, at + x.len()) =~= x);
    } else {
        lemma_run_splits(entries, k, (n - 1) as nat);
        assert(all.subrange(at, at + x.len()) =~= run_fields_of(entries, (n - 1) as nat).subrange(
            at,
            at + x.len(),
        ));
    }
}

#[verifier::rlimit(60)]
proof fn lemma_entries(s: Seq<u8>, at: int, v: TrunView, k: nat)
    requires
        flags_say(v),
        k <= v.entries.len(),
        stands(s, at, run_fields_of(v.entries, v.entries.len())),
    ensures
        cmaf::trun_entries(
            s,
            v.flags,
            (at + run_fields_of(v.entries, k).len()) as int,
            (v.entries.len() - k) as nat,
            v.entries.take(k as int),
        ) == Ok::<Seq<TrunEntry>, ErrorView>(v.entries),
    decreases v.entries.len() - k,
{
    let all = run_fields_of(v.entries, v.entries.len());
    if k < v.entries.len() {
        let e = v.entries[k as int];
        let x = run_fields(e);
        let off = run_fields_of(v.entries, k).len() as int;
        lemma_run_splits(v.entries, k, v.entries.len());
        assert(s.subrange(at + off, at + off + x.len()) =~= s.subrange(at, at + all.len()).subrange(
            off,
            off + x.len(),
        ));
        lemma_entry(s, v.flags, at + off, e);
        assert(v.entries.take(k as int).push(e) =~= v.entries.take((k + 1) as int));
        lemma_entries(s, at, v, k + 1);
    } else {
        assert(v.entries.take(k as int) =~= v.entries);
    }
}

/// A track run with any of its fields is read back: data offset, flags of the first sample, and
/// duration, size, flags and composition offset of every sample.
#[verifier::spinoff_prover]
#[verifier::rlimit(60)]
pub proof fn track_runs_read_back(version: u8, v: TrunView)
    requires
        flags_say(v),
    ensures
        cmaf::trun_of(run_record(version, v)) == Ok::<TrunView, ErrorView>(v),
{
    let s = run_record(version, v);
    let a = seq![version] + bytes::bytes24(v.flags) + bytes::bytes32(v.sample_count);
    let b = field(bits_of(v.data_offset));
    let c = field(v.first_sample_flags);
    let d = run_fields_of(v.entries, v.entries.len());
    assert(s.subrange(0, s.len() as int) =~= s);
    lemma_stands_part(s, 0, a + b + c, d);
    lemma_stands_part(s, 0, a + b, c);
    lemma_stands_part(s, 0, a, b);
    assert(a.len() == 8);
    assert(s.subrange(0, 8) =~= a);
    assert forall|i: int| 0 <= i < 8 implies #[trigger] s[i] == a[i] by {
        assert(s.subrange(0, 8)[i] == s[i]);
    }
    assert(s.subrange(4, 8) =~= bytes::bytes32(v.sample_count));
    bytes::lemma_be32_of_bytes32(s, 4, v.sample_count);
    assert(s[1] == a[1] && s[2] == a[2] && s[3] == a[3]);
    assert(bytes::be24(s, 1) == v.flags);
    lemma_field(
        s,
        8,
        bits_of(v.data_offset),
        v.flags & 0x0001 != 0,
        "trun: not enough data for data_offset",
    );
    lemma_field(
        s,
        (8 + b.len()) as int,
        v.first_sample_flags,
        v.flags & 0x0004 != 0,
        "trun: not enough data for first_sample_flags",
    );
    lemma_signed(v.data_offset);
    assert(v.entries.take(0) =~= Seq::empty());
    lemma_entries(s, (8 + b.len() + c.len()) as int, v, 0);
}

// Segment indexes.

/// A reference of a segment index: a bit for its type and 31 for the size, the duration, a bit for
/// whether it starts with an access point, and the rest of that field.
pub open spec fn reference_fields(r: SidxReference, rest: u32) -> Seq<u8> {
    bytes::bytes32(
        (r.referenced_size + if r.reference_type {
            0x8000_0000int
        } else {
            0
        }) as u32,
    ) + bytes::bytes32(r.subsegment_duration) + bytes::bytes32(
        (rest + if r.starts_with_sap {
            0x8000_0000int
        } else {
            0
        }) as u32,
    )
}

/// The first `n` references.
pub open spec fn references_of(list: Seq<SidxReference>, rest: Seq<u32>, n: nat) -> Seq<u8>
    decreases n,
{
    if n == 0 {
        Seq::empty()
    } else {
        references_of(list, rest, (n - 1) as nat) + reference_fields(list[n - 1], rest[n - 1])
    }
}

/// A segment index: version and flags, reference, timescale, two times of 32 or 64 bits, two
/// reserved bytes, the count and the references.
pub open spec fn index_record(
    long: bool,
    reference_id: u32,
    time: u64,
    v: SidxView,
    rest: Seq<u32>,
) -> Seq<u8> {
    seq![
        if long {
            1u8
        } else {
            0u8
        },
        0u8,
        0u8,
        0u8,
    ] + bytes::bytes32(reference_id) + bytes::bytes32(v.timescale) + (if long {
        bytes::bytes64(time) + bytes::bytes64(v.first_offset)
    } else {
        bytes::bytes32(time as u32) + bytes::bytes32(v.first_offset as u32)
    }) + seq![0u8, 0u8] + bytes::bytes16(v.references.len() as u16) + references_of(
        v.references,
        rest,
        v.references.len(),
    )
}

proof fn lemma_references_length(list: Seq<SidxReference>, rest: Seq<u32>, n: nat)
    ensures
        references_of(list, rest, n).len() == 12 * n,
    decreases n,
{
    if n > 0 {
        lemma_references_length(list, rest, (n - 1) as nat);
    }
}

proof fn lemma_reference_stands(list: Seq<SidxReference>, rest: Seq<u32>, k: int, n: nat)
    requires
        0 <= k < n <= list.len(),
    ensures
        stands(references_of(list, rest, n), 12 * k, reference_fields(list[k], rest[k])),
    decreases n,
{
    let all = references_of(list, rest, n);
    let x = reference_fields(list[k], rest[k]);
    lemma_references_length(list, rest, k as nat);
    lemma_references_length(list, rest, n);
    lemma_references_length(list, rest, (n - 1) as nat);
    if k + 1 == n {
        assert(all.subrange(12 * k, 12 * k + 12) =~= x);
    } else {
        lemma_reference_stands(list, rest, k, (n - 1) as nat);
        assert(all.subrange(12 * k, 12 * k + 12) =~= references_of(
            list,
            rest,
            (n - 1) as nat,
        ).subrange(12 * k, 12 * k + 12));
    }
}

#[verifier::rlimit(60)]
proof fn lemma_reference(s: Seq<u8>, off: int, r: SidxReference, rest: u32)
    requires
        stands(s, off, reference_fields(r, rest)),
        r.referenced_size < 0x8000_0000,
        rest < 0x8000_0000,
    ensures
        cmaf::sidx_reference(s, off) == r,
{
    let a = (r.referenced_size + if r.reference_type {
        0x8000_0000int
    } else {
        0
    }) as u32;
    let c = (rest + if r.starts_with_sap {
        0x8000_0000int
    } else {
        0
    }) as u32;
    lemma_stands_part(
        s,
        off,
        bytes::bytes32(a) + bytes::bytes32(r.subsegment_duration),
        bytes::bytes32(c),
    );
    lemma_stands_part(s, off, bytes::bytes32(a), bytes::bytes32(r.subsegment_duration));
    bytes::lemma_be32_of_bytes32(s, off, a);
    bytes::lemma_be32_of_bytes32(s, off + 4, r.subsegment_duration);
    bytes::lemma_be32_of_bytes32(s, off + 8, c);
}

/// A segment index is read back: timescale, offset of the first reference, and type, size,
/// duration and access point of every reference.
#[verifier::spinoff_prover]
#[verifier::rlimit(60)]
pub proof fn segment_indexes_read_back(
    long: bool,
    reference_id: u32,
    time: u64,
    v: SidxView,
    rest: Seq<u32>,
)
    requires
        v.references.len() <= 0xFFFF,
        rest.len() == v.references.len(),
        !long ==> v.first_offset <= u32::MAX,
        forall|k: int| 0 <= k < rest.len() ==> #[trigger] rest[k] < 0x8000_0000,
        forall|k: int|
            0 <= k < v.references.len() ==> (#[trigger] v.references[k]).referenced_size
                < 0x8000_0000,
    ensures
        cmaf::sidx_of(index_record(long, reference_id, time, v, rest)) == Ok::<SidxView, ErrorView>(
            v,
        ),
{
    let s = index_record(long, reference_id, time, v, rest);
    let n = v.references.len();
    let tail = references_of(v.references, rest, n);
    let head = s.take(s.len() - tail.len());
    let at: int = if long {
        28
    } else {
        20
    };
    lemma_references_length(v.references, rest, n);
    assert(s[0] == if long {
        1u8
    } else {
        0u8
    });
    assert(s.len() == at + 4 + 12 * n);
    assert(s.subrange(8, 12) =~= bytes::bytes32(v.timescale));
    bytes::lemma_be32_of_bytes32(s, 8, v.timescale);
    if long {
        assert(s.subrange(20, 28) =~= bytes::bytes64(v.first_offset));
        bytes::lemma_be64_of_bytes64(s, 20, v.first_offset);
    } else {
        assert(s.subrange(16, 20) =~= bytes::bytes32(v.first_offset as u32));
        bytes::lemma_be32_of_bytes32(s, 16, v.first_offset as u32);
    }
    assert(s.subrange(at + 2, at + 4) =~= bytes::bytes16(n as u16));
    bytes::lemma_be16_of_bytes16(s, at + 2, n as u16);
    assert(s.subrange(at + 4, s.len() as int) =~= tail);
    let got = Seq::new(n, |i: int| cmaf::sidx_reference(s, at + 4 + i * 12));
    assert forall|k: int| 0 <= k < n implies got[k] == v.references[k] by {
        let x = reference_fields(v.references[k], rest[k]);
        lemma_reference_stands(v.references, rest, k, n);
        assert(tail.subrange(12 * k, 12 * k + 12) == x);
        assert(s.subrange(at + 4 + 12 * k, at + 4 + 12 * k + 12) =~= tail.subrange(
            12 * k,
            12 * k + 12,
        ));
        lemma_reference(s, at + 4 + k * 12, v.references[k], rest[k]);
    }
    assert(got =~= v.references);
}

// Track encryption.

/// A track encryption record: version and flags, the pattern, whether samples are protected, the
/// IV size, the key, and the constant IV where there is one.
pub open spec fn encryption_record(v: TencView) -> Seq<u8> {
    seq![0u8, 0u8, 0u8, 0u8] + seq![
        (v.default_crypt_byte_block * 16 + v.default_skip_byte_block) as u8,
        v.is_protected,
        v.default_per_sample_iv_size,
    ] + v.default_kid + (match v.default_constant_iv {
        Some(iv) => seq![iv.len() as u8] + iv,
        None => Seq::empty(),
    })
}

/// A track encryption record is read back, with the constant IV that stands in for IVs of
/// samples.
pub proof fn encryption_records_read_back(v: TencView)
    requires
        v.default_kid.len() == 16,
        v.default_crypt_byte_block < 16,
        v.default_skip_byte_block < 16,
        v.default_constant_iv matches Some(iv) ==> iv.len() < 256 && v.default_per_sample_iv_size
            == 0,
    ensures
        cmaf::tenc_of(encryption_record(v)) == Ok::<TencView, ErrorView>(v),
{
    let s = encryption_record(v);
    assert(s.subrange(7, 23) =~= v.default_kid);
    if let Some(iv) = v.default_constant_iv {
        assert(s[23] == iv.len());
        assert(s.subrange(24, (24 + iv.len()) as int) =~= iv);
    }
}

// Splice commands.

/// A time of 33 bits behind seven other bits, the highest of which are set as given.
pub open spec fn long_time(high: int, t: u64) -> Seq<u8> {
    seq![(high * 2 + t / 0x1_0000_0000) as u8] + bytes::bytes32((t % 0x1_0000_0000) as u32)
}

/// A splice insertion for the whole program: the event, whether it leaves the network, its time,
/// or none where it is immediate, the duration of the break where it is known, and the program.
pub open spec fn insert_record(
    id: u32,
    out: bool,
    time: Option<u64>,
    duration: Option<u64>,
    program: u16,
) -> Seq<u8> {
    bytes::bytes32(id) + seq![
        0x7Fu8,
        (0x4F + (if out {
            0x80int
        } else {
            0
        }) + (if duration is Some {
            0x20int
        } else {
            0
        }) + (if time is None {
            0x10int
        } else {
            0
        })) as u8,
    ] + (match time {
        Some(t) => long_time(0x7F, t),
        None => Seq::empty(),
    }) + (match duration {
        Some(d) => long_time(0x7F, d),
        None => Seq::empty(),
    }) + bytes::bytes16(program) + seq![0u8, 0u8]
}

proof fn lemma_long_time(s: Seq<u8>, i: int, t: u64)
    requires
        stands(s, i, long_time(0x7F, t)),
        t < 0x2_0000_0000,
    ensures
        scte35::ticks33(s, i) == t,
        s[i] >= 128,
{
    let x = s.subrange(i, i + 5);
    assert(x[0] == s[i]);
    assert(s.subrange(i + 1, i + 5) =~= bytes::bytes32((t % 0x1_0000_0000) as u32)) by {
        assert(s.subrange(i + 1, i + 5) =~= x.subrange(1, 5));
    }
    bytes::lemma_be32_of_bytes32(s, i + 1, (t % 0x1_0000_0000) as u32);
}

/// A splice insertion is read back: the event, whether it leaves the network, its time, the
/// duration of the break in seconds, and the program.
#[verifier::spinoff_prover]
#[verifier::rlimit(60)]
pub proof fn splice_insertions_read_back(
    id: u32,
    out: bool,
    time: Option<u64>,
    duration: Option<u64>,
    program: u16,
)
    requires
        time matches Some(t) ==> t < 0x2_0000_0000,
        duration matches Some(d) ==> d < 0x2_0000_0000,
    ensures
        scte35::splice_insert_of(insert_record(id, out, time, duration, program)) matches Ok(v)
            && v.splice_command_type == 5 && v.splice_event_id == id && v.out_of_network == out
            && v.pts_time == time && v.unique_program_id == program && (match duration {
            Some(d) => v.break_duration matches Some(x) && x.nanos == d * 1_000_000_000 / 90000,
            None => v.break_duration is None,
        }),
{
    let s = insert_record(id, out, time, duration, program);
    assert(s.subrange(0, 4) =~= bytes::bytes32(id));
    bytes::lemma_be32_of_bytes32(s, 0, id);
    assert(s[4] == 0x7F);
    let flags = (0x4F + (if out {
        0x80int
    } else {
        0
    }) + (if duration is Some {
        0x20int
    } else {
        0
    }) + (if time is None {
        0x10int
    } else {
        0
    })) as u8;
    assert(s[5] == flags);
    let at: int = if time is Some {
        11
    } else {
        6
    };
    if let Some(t) = time {
        assert(s.subrange(6, 11) =~= long_time(0x7F, t));
        lemma_long_time(s, 6, t);
    }
    let end: int = if duration is Some {
        at + 5
    } else {
        at
    };
    if let Some(d) = duration {
        assert(s.subrange(at, at + 5) =~= long_time(0x7F, d));
        lemma_long_time(s, at, d);
    }
    assert(s.subrange(end, end + 2) =~= bytes::bytes16(program));
    bytes::lemma_be16_of_bytes16(s, end, program);
    assert(s.len() == end + 4);
}

/// A section with a splice command: the table, the length, seven bytes that are not used, the
/// length of the command and its type, the command, and what is behind it.
pub open spec fn splice_section(command_type: u8, command: Seq<u8>, rest: Seq<u8>) -> Seq<u8> {
    let n = 11 + command.len() + rest.len();
    seq![0xFCu8, (0x30 + n / 0x100) as u8, (n % 0x100) as u8] + bytes::zeros(8) + seq![
        (0xF0 + command.len() / 0x100) as u8,
        (command.len() % 0x100) as u8,
        command_type,
    ] + command + rest
}

/// A section with a splice insertion or a time signal is read as its command.
#[verifier::spinoff_prover]
#[verifier::rlimit(60)]
pub proof fn splice_sections_read_back(command: Seq<u8>, rest: Seq<u8>)
    requires
        command.len() + rest.len() + 11 < 0x1000,
        command.len() < 0xFFF,
    ensures
        scte35::splice_info_of(splice_section(5, command, rest)) == scte35::splice_insert_of(
            command,
        ),
        scte35::splice_info_of(splice_section(6, command, rest)) == Ok::<
            Scte35SpliceInfo,
            ErrorView,
        >(scte35::time_signal_of(command)),
{
    lemma_section(5, command, rest);
    lemma_section(6, command, rest);
    let s = splice_section(5, command, rest);
    let u = splice_section(6, command, rest);
    lemma_command(s, command);
    lemma_command(u, command);
}

/// Whether a section has a command.
spec fn has_command(s: Seq<u8>, command: Seq<u8>) -> bool {
    &&& s.len() >= 14 + command.len()
    &&& s[0] == 0xFC
    &&& 3 + (s[1] % 16) * 0x100 + s[2] == s.len()
    &&& s[4] == 0
    &&& (s[11] % 16) * 0x100 + s[12] == command.len()
    &&& command.len() < 0xFFF
    &&& s.subrange(14, (14 + command.len()) as int) == command
}

#[verifier::rlimit(60)]
proof fn lemma_section(kind: u8, command: Seq<u8>, rest: Seq<u8>)
    requires
        command.len() + rest.len() + 11 < 0x1000,
        command.len() < 0xFFF,
    ensures
        has_command(splice_section(kind, command, rest), command),
        splice_section(kind, command, rest)[13] == kind,
{
    let s = splice_section(kind, command, rest);
    let n = 11 + command.len() + rest.len();
    assert(s.len() == 3 + n);
    assert(s[1] == 0x30 + n / 0x100);
    assert(s[2] == n % 0x100);
    assert(s[11] == 0xF0 + command.len() / 0x100);
    assert(s[12] == command.len() % 0x100);
    assert(s.subrange(14, (14 + command.len()) as int) =~= command);
}

proof fn lemma_command(s: Seq<u8>, command: Seq<u8>)
    requires
        has_command(s, command),
    ensures
        s[13] == 5 ==> scte35::splice_info_of(s) == scte35::splice_insert_of(command),
        s[13] == 6 ==> scte35::splice_info_of(s) == Ok::<Scte35SpliceInfo, ErrorView>(
            scte35::time_signal_of(command),
        ),
{
    assert(bytes::clamped(s, 14, (14 + command.len()) as int) =~= command);
}

/// A time signal is read back.
pub proof fn time_signals_read_back(t: u64, rest: Seq<u8>)
    requires
        t < 0x2_0000_0000,
    ensures
        scte35::time_signal_of(long_time(0x7F, t) + rest).pts_time == Some(t),
        scte35::time_signal_of(long_time(0x7F, t) + rest).splice_command_type == 6,
{
    let s = long_time(0x7F, t) + rest;
    assert(s.subrange(0, 5) =~= long_time(0x7F, t));
    lemma_long_time(s, 0, t);
}

} // verus!
