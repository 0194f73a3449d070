//! What synthesized segments say when they are read.

use crate::bytes;
use crate::error::ErrorView;
use crate::media::box_type;
use crate::media::cmaf;
use crate::media::cmaf::{TrunEntry, TrunView};
use crate::media::round_trip;
use crate::media::segment;
use crate::media::segment::MoofInfo;
use crate::media::transmux;
use crate::media::transmux::{AudioView, VideoView};
use crate::media::ts::PesView;
use vstd::prelude::*;

verus! {

// NAL units.

proof fn lemma_next_code_first(s: Seq<u8>, i: int, j: int)
    requires
        0 <= i <= j,
        j < transmux::next_code(s, i),
        j + 2 < s.len(),
    ensures
        transmux::start_code(s, j) == 0,
    decreases s.len() - i,
{
    if transmux::start_code(s, i) == 0 && i < j {
        lemma_next_code_first(s, i + 1, j);
    }
}

/// Whether no start code stands in a NAL unit.
pub open spec fn free_of_codes(nal: Seq<u8>) -> bool {
    forall|j: int| 0 <= j < nal.len() ==> #[trigger] transmux::start_code(nal, j) == 0
}

/// Whether a NAL unit is not empty, has no start code in it and comes with its type.
pub open spec fn proper_unit(nal: (u8, Seq<u8>)) -> bool {
    nal.1.len() > 0 && free_of_codes(nal.1) && nal.0 == nal.1[0] % 32
}

/// Whether all NAL units are proper.
pub open spec fn proper_units(nals: Seq<(u8, Seq<u8>)>) -> bool {
    forall|k: int| 0 <= k < nals.len() ==> proper_unit(#[trigger] nals[k])
}

proof fn lemma_nals_free_of_codes(s: Seq<u8>, i: int, got: Seq<(u8, Seq<u8>)>)
    requires
        proper_units(got),
    ensures
        proper_units(transmux::nals_from(s, i, got)),
    decreases s.len() - i,
{
    if 0 <= i < s.len() && transmux::next_code(s, i) < s.len() {
        transmux::lemma_next_code(s, i);
        let start = transmux::next_code(s, i) + transmux::start_code(s, transmux::next_code(s, i));
        transmux::lemma_next_code(s, start);
        let end = transmux::next_code(s, start);
        if start < end {
            let nal = s.subrange(start, end);
            assert forall|j: int| 0 <= j < nal.len() implies #[trigger] transmux::start_code(nal, j)
                == 0 by {
                if transmux::start_code(nal, j) > 0 {
                    lemma_next_code_first(s, start, start + j);
                    assert(transmux::start_code(s, start + j) > 0);
                }
            }
            let unit = (s[start] % 32, nal);
            assert(nal[0] == s[start]);
            assert(proper_unit(unit));
            assert(proper_units(got.push(unit)));
            lemma_nals_free_of_codes(s, end, got.push(unit));
            assert(transmux::nals_from(s, i, got) == transmux::nals_from(s, end, got.push(unit)));
        } else {
            lemma_nals_free_of_codes(s, end, got);
        }
    }
}

/// No NAL unit of a byte stream is empty or has a start code in it, and each comes with its
/// type.
pub proof fn nal_units_are_free_of_start_codes(s: Seq<u8>)
    ensures
        proper_units(transmux::nals_of(s)),
{
    lemma_nals_free_of_codes(s, 0, Seq::empty());
}

/// Whether bytes can stand behind a start code as they are: they are not empty, do not end in
/// zero, and have neither 00 00 00 nor 00 00 01 in them.
pub open spec fn plain_unit(nal: Seq<u8>) -> bool {
    &&& nal.len() > 0
    &&& nal.last() != 0
    &&& forall|j: int|
        0 <= j < nal.len() - 2 ==> !(#[trigger] nal[j] == 0 && nal[j + 1] == 0 && nal[j + 2] <= 1)
}

/// A start code of four bytes or of three.
pub open spec fn code_bytes(long: bool) -> Seq<u8> {
    if long {
        seq![0u8, 0, 0, 1]
    } else {
        seq![0u8, 0, 1]
    }
}

/// The first `n` units, each behind a start code.
pub open spec fn coded_units(units: Seq<Seq<u8>>, long: Seq<bool>, n: nat) -> Seq<u8>
    decreases n,
{
    if n == 0 {
        Seq::empty()
    } else {
        coded_units(units, long, (n - 1) as nat) + code_bytes(long[n - 1]) + units[n - 1]
    }
}

/// The first `n` units with their types.
pub open spec fn typed_units(units: Seq<Seq<u8>>, n: nat) -> Seq<(u8, Seq<u8>)> {
    Seq::new(n, |k: int| (units[k][0] % 32, units[k]))
}

/// Unit `k` stands behind its start code, and what follows it is nothing or a start code.
proof fn lemma_unit_place(units: Seq<Seq<u8>>, long: Seq<bool>, k: nat, n: nat)
    requires
        k < n <= units.len(),
    ensures
        ({
            let s = coded_units(units, long, n);
            let at = coded_units(units, long, k).len();
            let end = coded_units(units, long, k + 1).len();
            let code = code_bytes(long[k as int]);
            &&& end == at + code.len() + units[k as int].len()
            &&& end <= s.len()
            &&& (k + 1 == n ==> end == s.len())
            &&& s.subrange(at as int, (at + code.len()) as int) == code
            &&& s.subrange((at + code.len()) as int, end as int) == units[k as int]
        }),
    decreases n,
{
    let s = coded_units(units, long, n);
    let before = coded_units(units, long, (n - 1) as nat);
    let at = coded_units(units, long, k).len() as int;
    let code = code_bytes(long[k as int]);
    if k + 1 == n {
        assert(s.subrange(at, at + code.len()) =~= code);
        assert(s.subrange(at + code.len(), s.len() as int) =~= units[k as int]);
    } else {
        lemma_unit_place(units, long, k, (n - 1) as nat);
        let end = coded_units(units, long, k + 1).len() as int;
        assert(s.subrange(at, at + code.len()) =~= before.subrange(at, at + code.len()));
        assert(s.subrange(at + code.len(), end) =~= before.subrange(at + code.len(), end));
    }
}

proof fn lemma_code_stands(s: Seq<u8>, at: int, long: bool)
    requires
        0 <= at,
        at + code_bytes(long).len() <= s.len(),
        s.subrange(at, at + code_bytes(long).len()) == code_bytes(long),
    ensures
        transmux::start_code(s, at) == code_bytes(long).len(),
        transmux::next_code(s, at) == at,
{
    let code = s.subrange(at, at + code_bytes(long).len());
    assert(code[0] == s[at] && code[1] == s[at + 1] && code[2] == s[at + 2]);
    if long {
        assert(code[3] == s[at + 3]);
    }
}

/// No start code begins inside a plain unit, so that the next one is behind it.
proof fn lemma_unit_ends(s: Seq<u8>, start: int, j: int, end: int, nal: Seq<u8>)
    requires
        0 <= start <= j <= end <= s.len(),
        s.subrange(start, end) == nal,
        plain_unit(nal),
        end == s.len() || transmux::next_code(s, end) == end,
    ensures
        transmux::next_code(s, j) == end,
    decreases end - j,
{
    if j < end {
        let i = j - start;
        assert(nal[i] == s[j]);
        assert(nal.last() == s[end - 1]);
        if j + 1 < end {
            assert(nal[i + 1] == s[j + 1]);
        }
        if j + 2 < end {
            assert(nal[i + 2] == s[j + 2]);
        }
        assert(transmux::start_code(s, j) == 0);
        if j + 2 < s.len() {
            lemma_unit_ends(s, start, j + 1, end, nal);
        } else {
            lemma_near_end(s, j, end);
        }
    }
}

proof fn lemma_near_end(s: Seq<u8>, j: int, end: int)
    requires
        0 <= j < end <= s.len(),
        j + 2 >= s.len(),
        end == s.len() || transmux::next_code(s, end) == end,
    ensures
        transmux::next_code(s, j) == end,
{
}

proof fn lemma_units_read(units: Seq<Seq<u8>>, long: Seq<bool>, k: nat)
    requires
        k <= units.len(),
        long.len() == units.len(),
        forall|i: int| 0 <= i < units.len() ==> plain_unit(#[trigger] units[i]),
    ensures
        ({
            let s = coded_units(units, long, units.len());
            transmux::nals_from(
                s,
                coded_units(units, long, k).len() as int,
                typed_units(units, k),
            ) == typed_units(units, units.len())
        }),
    decreases units.len() - k,
{
    let n = units.len();
    let s = coded_units(units, long, n);
    if k < n {
        let at = coded_units(units, long, k).len() as int;
        let code = code_bytes(long[k as int]);
        let start = at + code.len();
        let end = coded_units(units, long, k + 1).len() as int;
        let nal = units[k as int];
        assert(plain_unit(nal));
        lemma_unit_place(units, long, k, n);
        lemma_code_stands(s, at, long[k as int]);
        if k + 1 < n {
            assert(plain_unit(units[k as int + 1]));
            lemma_unit_place(units, long, k + 1, n);
            lemma_code_stands(s, end, long[k as int + 1]);
        }
        lemma_unit_ends(s, start, start, end, nal);
        assert(nal[0] == s[start]);
        assert(typed_units(units, k).push((s[start] % 32, s.subrange(start, end))) =~= typed_units(
            units,
            k + 1,
        ));
        lemma_units_read(units, long, k + 1);
    }
}

/// NAL units that were written behind start codes, of three bytes or of four, are read back in
/// order, each with its type.
pub proof fn coded_units_read_back(units: Seq<Seq<u8>>, long: Seq<bool>)
    requires
        long.len() == units.len(),
        forall|i: int| 0 <= i < units.len() ==> plain_unit(#[trigger] units[i]),
    ensures
        transmux::nals_of(coded_units(units, long, units.len())) == typed_units(
            units,
            units.len(),
        ),
{
    assert(typed_units(units, 0) =~= Seq::empty());
    lemma_units_read(units, long, 0);
}

/// The NAL units that go into the sample data, of the first `n`.
pub open spec fn sample_units(nals: Seq<(u8, Seq<u8>)>, n: nat) -> Seq<Seq<u8>>
    decreases n,
{
    if n == 0 {
        Seq::empty()
    } else if transmux::in_sample(nals[n - 1].1) {
        sample_units(nals, (n - 1) as nat).push(nals[n - 1].1)
    } else {
        sample_units(nals, (n - 1) as nat)
    }
}

/// The units in a byte string of units with four-byte length prefixes, from `i` on, after
/// those in `got`.
pub open spec fn prefixed_units(s: Seq<u8>, i: int, got: Seq<Seq<u8>>) -> Option<Seq<Seq<u8>>>
    decreases s.len() - i,
{
    if i == s.len() {
        Some(got)
    } else if i < 0 || i + 4 > s.len() || i + 4 + bytes::be32(s, i) > s.len() {
        None
    } else {
        let end = i + 4 + bytes::be32(s, i);
        prefixed_units(s, end, got.push(s.subrange(i + 4, end)))
    }
}

proof fn lemma_avcc_prefix(nals: Seq<(u8, Seq<u8>)>, k: nat, n: nat)
    requires
        k <= n <= nals.len(),
    ensures
        transmux::avcc_bytes(nals, k).len() <= transmux::avcc_bytes(nals, n).len(),
        transmux::avcc_bytes(nals, k) == transmux::avcc_bytes(nals, n).take(
            transmux::avcc_bytes(nals, k).len() as int,
        ),
    decreases n,
{
    let a = transmux::avcc_bytes(nals, k);
    let all = transmux::avcc_bytes(nals, n);
    if k < n {
        lemma_avcc_prefix(nals, k, (n - 1) as nat);
        assert(a =~= all.take(a.len() as int));
    } else {
        assert(a =~= all.take(a.len() as int));
    }
}

proof fn lemma_units_step(nals: Seq<(u8, Seq<u8>)>, k: nat, n: nat)
    requires
        k < n <= nals.len(),
        transmux::avcc_bytes(nals, n).len() <= u32::MAX,
    ensures
        prefixed_units(
            transmux::avcc_bytes(nals, n),
            0,
            Seq::empty(),
        ) == prefixed_units(
            transmux::avcc_bytes(nals, n),
            transmux::avcc_bytes(nals, k + 1).len() as int,
            sample_units(nals, k + 1),
        ),
    decreases k,
{
    let all = transmux::avcc_bytes(nals, n);
    let nal = nals[k as int].1;
    let at = transmux::avcc_bytes(nals, k).len() as int;
    if k > 0 {
        lemma_units_step(nals, (k - 1) as nat, n);
    }
    if transmux::in_sample(nal) {
        let more = transmux::avcc_bytes(nals, k + 1);
        lemma_avcc_prefix(nals, k + 1, n);
        assert(more.len() == at + 4 + nal.len());
        assert(all.subrange(at, at + 4) =~= more.subrange(at, at + 4));
        assert(more.subrange(at, at + 4) =~= bytes::bytes32(nal.len() as u32));
        bytes::lemma_be32_of_bytes32(all, at, nal.len() as u32);
        assert(all.subrange(at + 4, at + 4 + nal.len()) =~= more.subrange(
            at + 4,
            at + 4 + nal.len(),
        ));
        assert(more.subrange(at + 4, at + 4 + nal.len()) =~= nal);
        assert(bytes::be32(all, at) == nal.len());
        let units = sample_units(nals, k);
        assert(sample_units(nals, k + 1) == units.push(nal));
        assert(prefixed_units(all, at, units) == prefixed_units(
            all,
            at + 4 + nal.len(),
            units.push(nal),
        ));
    } else {
        assert(sample_units(nals, k + 1) == sample_units(nals, k));
        assert(transmux::avcc_bytes(nals, k + 1) == transmux::avcc_bytes(nals, k));
    }
}

/// Reading the length prefixes of a converted byte stream gives back its NAL units, without
/// parameter sets, in order.
pub proof fn avcc_reads_back(s: Seq<u8>)
    requires
        transmux::avcc_of(s).len() <= u32::MAX,
    ensures
        prefixed_units(transmux::avcc_of(s), 0, Seq::empty()) == Some(
            sample_units(transmux::nals_of(s), transmux::nals_of(s).len()),
        ),
{
    let nals = transmux::nals_of(s);
    if nals.len() > 0 {
        lemma_units_step(nals, (nals.len() - 1) as nat, nals.len());
    }
}

// Track runs.

/// What a track run says of a sample.
pub open spec fn run_entry(duration: u32, size: u32, flags: Option<u32>) -> TrunEntry {
    TrunEntry {
        sample_duration: Some(duration),
        sample_size: Some(size),
        sample_flags: flags,
        sample_composition_time_offset: None,
    }
}

/// The bytes of a sample in a track run.
spec fn run_bytes(duration: u32, size: u32, flags: Option<u32>) -> Seq<u8> {
    bytes::bytes32(duration) + bytes::bytes32(size) + (match flags {
        Some(f) => bytes::bytes32(f),
        None => Seq::empty(),
    })
}

/// The flags of a track run with or without sample flags.
pub open spec fn run_flags(with_flags: bool) -> u32 {
    if with_flags {
        0x701
    } else {
        0x301
    }
}

proof fn lemma_run_flags(with_flags: bool)
    ensures
        ({
            let flags = run_flags(with_flags);
            &&& flags & 0x0001 != 0
            &&& flags & 0x0004 == 0
            &&& flags & 0x0100 != 0
            &&& flags & 0x0200 != 0
            &&& (flags & 0x0400 != 0) == with_flags
            &&& flags & 0x0800 == 0
        }),
{
    assert(0x701u32 & 0x0001 != 0 && 0x701u32 & 0x0004 == 0 && 0x701u32 & 0x0100 != 0 && 0x701u32
        & 0x0200 != 0 && 0x701u32 & 0x0400 != 0 && 0x701u32 & 0x0800 == 0) by (bit_vector);
    assert(0x301u32 & 0x0001 != 0 && 0x301u32 & 0x0004 == 0 && 0x301u32 & 0x0100 != 0 && 0x301u32
        & 0x0200 != 0 && 0x301u32 & 0x0400 == 0 && 0x301u32 & 0x0800 == 0) by (bit_vector);
}

/// One sample of a track run is read back from where it was written.
proof fn lemma_run_entry(
    s: Seq<u8>,
    front: Seq<u8>,
    duration: u32,
    size: u32,
    flags: Option<u32>,
    after: Seq<u8>,
)
    requires
        s == front + run_bytes(duration, size, flags) + after,
    ensures
        cmaf::trun_entry(s, run_flags(flags is Some), front.len() as int) == Ok::<
            (TrunEntry, int),
            ErrorView,
        >(
            (
                run_entry(duration, size, flags),
                (front.len() + run_bytes(duration, size, flags).len()) as int,
            ),
        ),
{
    let off = front.len() as int;
    lemma_run_flags(flags is Some);
    assert(s.subrange(off, off + 4) =~= bytes::bytes32(duration));
    assert(s.subrange(off + 4, off + 8) =~= bytes::bytes32(size));
    bytes::lemma_be32_of_bytes32(s, off, duration);
    bytes::lemma_be32_of_bytes32(s, off + 4, size);
    if let Some(f) = flags {
        assert(s.subrange(off + 8, off + 12) =~= bytes::bytes32(f));
        bytes::lemma_be32_of_bytes32(s, off + 8, f);
    }
}

/// The samples of a track run as bytes.
spec fn run_strings(entries: Seq<TrunEntry>) -> Seq<Seq<u8>> {
    entries.map_values(
        |e: TrunEntry| run_bytes(e.sample_duration->0, e.sample_size->0, e.sample_flags),
    )
}

/// Whether the entries of a track run have duration and size, flags all or none of them, and
/// no composition offset.
pub open spec fn plain_run(entries: Seq<TrunEntry>, with_flags: bool) -> bool {
    forall|k: int|
        0 <= k < entries.len() ==> {
            let e = #[trigger] entries[k];
            &&& e.sample_duration is Some
            &&& e.sample_size is Some
            &&& e.sample_flags is Some == with_flags
            &&& e.sample_composition_time_offset is None
        }
}

proof fn lemma_run_entries(
    s: Seq<u8>,
    front: Seq<u8>,
    entries: Seq<TrunEntry>,
    with_flags: bool,
    k: nat,
)
    requires
        plain_run(entries, with_flags),
        k <= entries.len(),
        s == front + cmaf::joined(run_strings(entries), entries.len()),
    ensures
        cmaf::trun_entries(
            s,
            run_flags(with_flags),
            (front.len() + cmaf::joined(run_strings(entries), k).len()) as int,
            (entries.len() - k) as nat,
            entries.take(k as int),
        ) == Ok::<Seq<TrunEntry>, ErrorView>(entries),
    decreases entries.len() - k,
{
    let strings = run_strings(entries);
    if k == entries.len() {
        assert(entries.take(k as int) =~= entries);
    } else {
        let e = entries[k as int];
        round_trip::lemma_joined_splits(strings, k, strings.len());
        let after = choose|after: Seq<u8>|
            cmaf::joined(strings, strings.len()) == #[trigger] (cmaf::joined(strings, k)
                + strings[k as int] + after);
        let before = front + cmaf::joined(strings, k);
        assert(s =~= before + strings[k as int] + after);
        lemma_run_entry(
            s,
            before,
            e.sample_duration->0,
            e.sample_size->0,
            e.sample_flags,
            after,
        );
        assert(e == run_entry(e.sample_duration->0, e.sample_size->0, e.sample_flags));
        assert(entries.take(k as int).push(e) =~= entries.take((k + 1) as int));
        lemma_run_entries(s, front, entries, with_flags, k + 1);
    }
}

/// The payload of a track run box.
spec fn run_payload(entries: Seq<TrunEntry>, with_flags: bool) -> Seq<u8> {
    seq![0u8] + bytes::bytes24(run_flags(with_flags)) + (bytes::bytes32(entries.len() as u32)
        + bytes::zeros(4) + cmaf::joined(run_strings(entries), entries.len()))
}

/// What a track run that was built says.
pub open spec fn run_info(entries: Seq<TrunEntry>, with_flags: bool) -> TrunView {
    TrunView {
        flags: run_flags(with_flags),
        sample_count: entries.len() as u32,
        data_offset: Some(0i32),
        first_sample_flags: None,
        entries,
    }
}

proof fn lemma_run_head(s: Seq<u8>, with_flags: bool, count: u32, rest: Seq<u8>)
    requires
        s == seq![0u8] + bytes::bytes24(run_flags(with_flags)) + (bytes::bytes32(count)
            + bytes::zeros(4) + rest),
    ensures
        12 <= s.len(),
        bytes::be24(s, 1) == run_flags(with_flags),
        bytes::be32(s, 4) == count,
        bytes::be32(s, 8) == 0,
        s.take(12) + rest == s,
{
    assert(s.subrange(4, 8) =~= bytes::bytes32(count));
    bytes::lemma_be32_of_bytes32(s, 4, count);
    assert(s[8] == 0 && s[9] == 0 && s[10] == 0 && s[11] == 0);
    assert(s.take(12) + rest =~= s);
}

proof fn lemma_run_reads_back(entries: Seq<TrunEntry>, with_flags: bool)
    requires
        plain_run(entries, with_flags),
        entries.len() <= u32::MAX,
    ensures
        cmaf::trun_of(run_payload(entries, with_flags)) == Ok::<TrunView, ErrorView>(
            run_info(entries, with_flags),
        ),
{
    let s = run_payload(entries, with_flags);
    let all = cmaf::joined(run_strings(entries), entries.len());
    lemma_run_flags(with_flags);
    lemma_run_head(s, with_flags, entries.len() as u32, all);
    lemma_run_entries(s, s.take(12), entries, with_flags, 0);
    assert(entries.take(0) =~= Seq::empty());
    assert(0u32 as i32 == 0i32);
}

/// A full box is a box around version, flags and payload.
/// A full box is a box with version and flags in front of its payload.
pub proof fn lemma_full_boxed(code: Seq<u8>, version: u8, flags: u32, payload: Seq<u8>)
    requires
        code.len() == 4,
    ensures
        cmaf::full_boxed(code, version, flags, payload) == cmaf::boxed(
            code,
            seq![version] + bytes::bytes24(flags) + payload,
        ),
{
    assert(cmaf::full_boxed(code, version, flags, payload) =~= cmaf::boxed(
        code,
        seq![version] + bytes::bytes24(flags) + payload,
    ));
}

/// The entries of the track run of a video fragment.
pub open spec fn video_entries(
    durations: Seq<u32>,
    sizes: Seq<u32>,
    flags: Seq<u32>,
) -> Seq<TrunEntry> {
    Seq::new(durations.len(), |i: int| run_entry(durations[i], sizes[i], Some(flags[i])))
}

/// The entries of the track run of an audio fragment.
pub open spec fn audio_entries(durations: Seq<u32>, sizes: Seq<u32>) -> Seq<TrunEntry> {
    Seq::new(durations.len(), |i: int| run_entry(durations[i], sizes[i], None))
}

proof fn lemma_video_runs(durations: Seq<u32>, sizes: Seq<u32>, flags: Seq<u32>, n: nat)
    requires
        n <= durations.len(),
    ensures
        transmux::video_runs(durations, sizes, flags, n) == cmaf::joined(
            run_strings(video_entries(durations, sizes, flags)),
            n,
        ),
    decreases n,
{
    if n > 0 {
        lemma_video_runs(durations, sizes, flags, (n - 1) as nat);
        let strings = run_strings(video_entries(durations, sizes, flags));
        assert(strings[n - 1] == run_bytes(durations[n - 1], sizes[n - 1], Some(flags[n - 1])));
        assert(transmux::video_runs(durations, sizes, flags, n) =~= cmaf::joined(strings, n));
    }
}

proof fn lemma_audio_runs(durations: Seq<u32>, sizes: Seq<u32>, n: nat)
    requires
        n <= durations.len(),
    ensures
        transmux::audio_runs(durations, sizes, n) == cmaf::joined(
            run_strings(audio_entries(durations, sizes)),
            n,
        ),
    decreases n,
{
    if n > 0 {
        lemma_audio_runs(durations, sizes, (n - 1) as nat);
        let strings = run_strings(audio_entries(durations, sizes));
        assert(strings[n - 1] == run_bytes(durations[n - 1], sizes[n - 1], None));
        assert(transmux::audio_runs(durations, sizes, n) =~= cmaf::joined(strings, n));
    }
}

/// Whether `p` is a track run box that says what `v` says.
pub open spec fn run_box(p: Seq<u8>, v: TrunView) -> bool {
    &&& round_trip::whole_box(p)
    &&& round_trip::type_of(p) == box_type::TRUN@
    &&& cmaf::trun_of(round_trip::payload_of(p)) == Ok::<TrunView, ErrorView>(v)
}

/// A track run that was built for a video fragment is parsed back: duration, size and flags of
/// every sample.
pub proof fn video_trun_round_trip(durations: Seq<u32>, sizes: Seq<u32>, flags: Seq<u32>)
    requires
        transmux::video_trun(durations, sizes, flags).len() <= u32::MAX,
        durations.len() <= u32::MAX,
    ensures
        run_box(
            transmux::video_trun(durations, sizes, flags),
            run_info(video_entries(durations, sizes, flags), true),
        ),
{
    let entries = video_entries(durations, sizes, flags);
    let body = bytes::bytes32(durations.len() as u32) + bytes::zeros(4) + transmux::video_runs(
        durations,
        sizes,
        flags,
        durations.len(),
    );
    lemma_video_runs(durations, sizes, flags, durations.len());
    lemma_full_boxed(box_type::TRUN@, 0, 0x701, body);
    lemma_run_reads_back(entries, true);
    round_trip::boxed_reads_back(box_type::TRUN@, run_payload(entries, true));
}

/// A track run that was built for an audio fragment is parsed back: duration and size of every
/// sample.
pub proof fn audio_trun_round_trip(durations: Seq<u32>, sizes: Seq<u32>)
    requires
        transmux::audio_trun(durations, sizes).len() <= u32::MAX,
        durations.len() <= u32::MAX,
    ensures
        run_box(
            transmux::audio_trun(durations, sizes),
            run_info(audio_entries(durations, sizes), false),
        ),
{
    let entries = audio_entries(durations, sizes);
    let body = bytes::bytes32(durations.len() as u32) + bytes::zeros(4) + transmux::audio_runs(
        durations,
        sizes,
        durations.len(),
    );
    lemma_audio_runs(durations, sizes, durations.len());
    lemma_full_boxed(box_type::TRUN@, 0, 0x301, body);
    lemma_run_reads_back(entries, false);
    round_trip::boxed_reads_back(box_type::TRUN@, run_payload(entries, false));
}

// Fragments.

/// The payload of a synthesized movie fragment.
pub open spec fn fragment_payload(
    sequence_number: u32,
    track_id: u32,
    time: u64,
    trun: Seq<u8>,
) -> Seq<u8> {
    transmux::mfhd_box(sequence_number) + cmaf::boxed(
        box_type::TRAF@,
        transmux::tfhd_box(track_id) + transmux::tfdt_box(time) + trun,
    )
}

proof fn lemma_fragment_codes()
    ensures
        box_type::TFHD@ != box_type::TRUN@,
        box_type::TFDT@ != box_type::TRUN@,
        box_type::MFHD@ != box_type::TRAF@,
{
    assert(box_type::TFHD@[1] != box_type::TRUN@[1]);
    assert(box_type::TFDT@[1] != box_type::TRUN@[1]);
    assert(box_type::MFHD@[0] != box_type::TRAF@[0]);
}

/// The headers in a synthesized movie fragment are whole boxes.
proof fn lemma_fragment_headers(sequence_number: u32, track_id: u32, time: u64)
    ensures
        round_trip::whole_box(transmux::mfhd_box(sequence_number)),
        round_trip::type_of(transmux::mfhd_box(sequence_number)) == box_type::MFHD@,
        round_trip::whole_box(transmux::tfhd_box(track_id)),
        round_trip::type_of(transmux::tfhd_box(track_id)) == box_type::TFHD@,
        round_trip::whole_box(transmux::tfdt_box(time)),
        round_trip::type_of(transmux::tfdt_box(time)) == box_type::TFDT@,
{
    let a = bytes::bytes32(sequence_number);
    let b = bytes::bytes32(track_id);
    let c = bytes::bytes64(time);
    lemma_full_boxed(box_type::MFHD@, 0, 0, a);
    lemma_full_boxed(box_type::TFHD@, 0, 0x2_0000, b);
    lemma_full_boxed(box_type::TFDT@, 1, 0, c);
    round_trip::boxed_reads_back(box_type::MFHD@, seq![0u8] + bytes::bytes24(0) + a);
    round_trip::boxed_reads_back(box_type::TFHD@, seq![0u8] + bytes::bytes24(0x2_0000) + b);
    round_trip::boxed_reads_back(box_type::TFDT@, seq![1u8] + bytes::bytes24(0) + c);
}

/// Three boxes joined.
pub proof fn lemma_joined_three(a: Seq<u8>, b: Seq<u8>, c: Seq<u8>)
    ensures
        cmaf::joined(seq![a, b, c], 3) == a + b + c,
{
    let parts = seq![a, b, c];
    assert(cmaf::joined(parts, 0) == Seq::<u8>::empty());
    assert(cmaf::joined(parts, 1) =~= a);
    assert(cmaf::joined(parts, 2) == a + b);
}

/// Two boxes joined.
pub proof fn lemma_joined_two(a: Seq<u8>, b: Seq<u8>)
    ensures
        cmaf::joined(seq![a, b], 2) == a + b,
{
    let parts = seq![a, b];
    assert(cmaf::joined(parts, 0) == Seq::<u8>::empty());
    assert(cmaf::joined(parts, 1) =~= a);
}

/// Two whole boxes are read one after the other.
proof fn lemma_run_of_two(a: Seq<u8>, b: Seq<u8>)
    requires
        round_trip::whole_box(a),
        round_trip::whole_box(b),
        a.len() + b.len() <= u64::MAX,
    ensures
        cmaf::run(a + b).fault is None,
        cmaf::run(a + b).headers.len() == 2,
        round_trip::stands_for(a + b, cmaf::run(a + b).headers[0], a),
        round_trip::stands_for(a + b, cmaf::run(a + b).headers[1], b),
{
    let parts = seq![a, b];
    lemma_joined_two(a, b);
    assert(round_trip::made_of(a + b, parts));
    round_trip::run_hands_out_every_box(a + b, parts);
    assert(round_trip::stands_for(a + b, cmaf::run(a + b).headers[0], parts[0]));
    assert(round_trip::stands_for(a + b, cmaf::run(a + b).headers[1], parts[1]));
}

/// What the track fragment of a synthesized movie fragment says.
proof fn lemma_traf_says(track_id: u32, time: u64, trun: Seq<u8>, v: TrunView)
    requires
        run_box(trun, v),
        trun.len() + 100 <= u64::MAX,
    ensures
        segment::traf_info(
            transmux::tfhd_box(track_id) + transmux::tfdt_box(time) + trun,
            0,
            None,
            segment::no_info(),
        ) == Ok::<MoofInfo, ErrorView>(MoofInfo { senc: None, trun: Some(v) }),
{
    let a = transmux::tfhd_box(track_id);
    let b = transmux::tfdt_box(time);
    let s = a + b + trun;
    let parts = seq![a, b, trun];
    lemma_fragment_headers(0, track_id, time);
    lemma_fragment_codes();
    lemma_joined_three(a, b, trun);
    assert(round_trip::made_of(s, parts));
    round_trip::run_hands_out_every_box(s, parts);
    let headers = cmaf::run(s).headers;
    assert(round_trip::stands_for(s, headers[0], parts[0]));
    assert(round_trip::stands_for(s, headers[1], parts[1]));
    assert(round_trip::stands_for(s, headers[2], parts[2]));
    let none = segment::no_info();
    let some = MoofInfo { senc: None, trun: Some(v) };
    assert(segment::traf_info(s, 3, None, some) == Ok::<MoofInfo, ErrorView>(some));
    assert(segment::traf_info(s, 2, None, none) == Ok::<MoofInfo, ErrorView>(some));
    assert(segment::traf_info(s, 1, None, none) == Ok::<MoofInfo, ErrorView>(some));
}

proof fn lemma_moof_says(s: Seq<u8>, body: Seq<u8>, v: TrunView)
    requires
        cmaf::run(s).fault is None,
        cmaf::run(s).headers.len() == 2,
        cmaf::run(s).headers[0].box_type@ == box_type::MFHD@,
        cmaf::run(s).headers[1].box_type@ == box_type::TRAF@,
        cmaf::box_body(s, cmaf::run(s).headers[1]) == body,
        segment::traf_info(body, 0, None, segment::no_info()) == Ok::<MoofInfo, ErrorView>(
            (MoofInfo { senc: None, trun: Some(v) }),
        ),
    ensures
        segment::run_info(s) == Ok::<TrunView, ErrorView>(v),
{
    let none = segment::no_info();
    let some = MoofInfo { senc: None, trun: Some(v) };
    lemma_fragment_codes();
    assert(segment::moof_info(s, 2, None, some) == Ok::<MoofInfo, ErrorView>(some));
    assert(segment::moof_info(s, 1, None, none) == Ok::<MoofInfo, ErrorView>(some));
    assert(segment::moof_info(s, 0, None, none) == segment::moof_info(s, 1, None, none));
}

proof fn lemma_moof_of(a: Seq<u8>, body: Seq<u8>, v: TrunView)
    requires
        round_trip::whole_box(a),
        round_trip::type_of(a) == box_type::MFHD@,
        a.len() + body.len() + 8 <= u32::MAX,
        segment::traf_info(body, 0, None, segment::no_info()) == Ok::<MoofInfo, ErrorView>(
            (MoofInfo { senc: None, trun: Some(v) }),
        ),
    ensures
        segment::run_info(a + cmaf::boxed(box_type::TRAF@, body)) == Ok::<TrunView, ErrorView>(v),
{
    let b = cmaf::boxed(box_type::TRAF@, body);
    assert(b.len() == body.len() + 8);
    round_trip::boxed_reads_back(box_type::TRAF@, body);
    lemma_run_of_two(a, b);
    lemma_moof_says(a + b, body, v);
}

proof fn lemma_moof_from(a: Seq<u8>, body: Seq<u8>, v: TrunView)
    requires
        round_trip::whole_box(a),
        round_trip::type_of(a) == box_type::MFHD@,
        (a + cmaf::boxed(box_type::TRAF@, body)).len() <= u32::MAX,
        segment::traf_info(body, 0, None, segment::no_info()) == Ok::<MoofInfo, ErrorView>(
            (MoofInfo { senc: None, trun: Some(v) }),
        ),
    ensures
        segment::run_info(a + cmaf::boxed(box_type::TRAF@, body)) == Ok::<TrunView, ErrorView>(v),
{
    assert(cmaf::boxed(box_type::TRAF@, body).len() == body.len() + 8);
    lemma_moof_of(a, body, v);
}

proof fn lemma_traf_length(track_id: u32, time: u64, trun: Seq<u8>, a: Seq<u8>)
    requires
        (a + cmaf::boxed(
            box_type::TRAF@,
            transmux::tfhd_box(track_id) + transmux::tfdt_box(time) + trun,
        )).len() <= u32::MAX,
    ensures
        trun.len() <= u32::MAX,
{
}

/// A synthesized movie fragment says of its samples what its track run says.
proof fn lemma_fragment_says(
    sequence_number: u32,
    track_id: u32,
    time: u64,
    trun: Seq<u8>,
    v: TrunView,
)
    requires
        run_box(trun, v),
        fragment_payload(sequence_number, track_id, time, trun).len() <= u32::MAX,
    ensures
        segment::run_info(fragment_payload(sequence_number, track_id, time, trun)) == Ok::<
            TrunView,
            ErrorView,
        >(v),
{
    let a = transmux::mfhd_box(sequence_number);
    let body = transmux::tfhd_box(track_id) + transmux::tfdt_box(time) + trun;
    lemma_traf_length(track_id, time, trun, a);
    lemma_fragment_headers(sequence_number, track_id, time);
    lemma_traf_says(track_id, time, trun, v);
    lemma_moof_from(a, body, v);
}

// Samples.

/// The sizes of samples.
pub open spec fn sample_sizes(samples: Seq<Seq<u8>>) -> Seq<u32> {
    samples.map_values(|x: Seq<u8>| x.len() as u32)
}

proof fn lemma_sample_starts(samples: Seq<Seq<u8>>, n: nat)
    requires
        n <= samples.len(),
        cmaf::joined(samples, samples.len()).len() <= u32::MAX,
    ensures
        segment::span_start(segment::whole_spans(sample_sizes(samples)), n) == cmaf::joined(
            samples,
            n,
        ).len(),
    decreases n,
{
    if n > 0 {
        lemma_sample_starts(samples, (n - 1) as nat);
        round_trip::lemma_part_length(samples, n - 1, samples.len());
    }
}

/// The sizes of samples cut their data into the samples again, with nothing left over.
pub proof fn sizes_cut_the_data(samples: Seq<Seq<u8>>)
    requires
        cmaf::joined(samples, samples.len()).len() <= u32::MAX,
    ensures
        ({
            let data = cmaf::joined(samples, samples.len());
            let spans = segment::whole_spans(sample_sizes(samples));
            &&& spans.len() == samples.len()
            &&& segment::span_start(spans, samples.len()) == data.len()
            &&& forall|j: int|
                0 <= j < samples.len() ==> #[trigger] segment::sample_at(spans, data, j)
                    == samples[j]
        }),
{
    let data = cmaf::joined(samples, samples.len());
    let spans = segment::whole_spans(sample_sizes(samples));
    lemma_sample_starts(samples, samples.len());
    assert forall|j: int| 0 <= j < samples.len() implies #[trigger] segment::sample_at(
        spans,
        data,
        j,
    ) == samples[j] by {
        lemma_sample_starts(samples, j as nat);
        round_trip::lemma_part_length(samples, j, samples.len());
        round_trip::lemma_joined_splits(samples, j as nat, samples.len());
        let after = choose|after: Seq<u8>|
            data == #[trigger] (cmaf::joined(samples, j as nat) + samples[j] + after);
        assert(segment::sample_at(spans, data, j) =~= samples[j]);
    }
}

/// The entries of a track run hold the sizes of the samples.
proof fn lemma_sizes_listed(entries: Seq<TrunEntry>, sizes: Seq<u32>, i: int)
    requires
        entries.len() == sizes.len(),
        forall|k: int|
            0 <= k < entries.len() ==> (#[trigger] entries[k]).sample_size == Some(sizes[k]),
        0 <= i <= entries.len(),
    ensures
        segment::sizes_from(entries, i, sizes.take(i)) == Ok::<Seq<u32>, ErrorView>(sizes),
    decreases entries.len() - i,
{
    if i == entries.len() {
        assert(sizes.take(i) =~= sizes);
    } else {
        assert(entries[i].sample_size == Some(sizes[i]));
        assert(sizes.take(i).push(sizes[i]) =~= sizes.take(i + 1));
        lemma_sizes_listed(entries, sizes, i + 1);
    }
}

/// Whether a segment reads back as the given samples: it has a fragment and sample data, the
/// fragment lists the sizes of the samples, and the data is the samples one after the other.
pub open spec fn holds_samples(s: Seq<u8>, samples: Seq<Seq<u8>>) -> bool {
    match segment::segment_parts(s) {
        Ok((moof, mdat)) => mdat == cmaf::joined(samples, samples.len()) && match segment::run_info(
            moof,
        ) {
            Ok(trun) => segment::sizes_from(trun.entries, 0, Seq::empty()) == Ok::<
                Seq<u32>,
                ErrorView,
            >(sample_sizes(samples)),
            Err(_) => false,
        },
        Err(_) => false,
    }
}

proof fn lemma_fragment_reads_back(
    sequence_number: u32,
    track_id: u32,
    time: u64,
    trun: Seq<u8>,
    v: TrunView,
    samples: Seq<Seq<u8>>,
)
    requires
        run_box(trun, v),
        v.entries.len() == samples.len(),
        forall|k: int|
            0 <= k < v.entries.len() ==> (#[trigger] v.entries[k]).sample_size == Some(
                samples[k].len() as u32,
            ),
        transmux::moof_box(sequence_number, track_id, time, trun).len() + cmaf::joined(
            samples,
            samples.len(),
        ).len() + 8 <= u32::MAX,
    ensures
        holds_samples(
            transmux::moof_box(sequence_number, track_id, time, trun) + cmaf::boxed(
                box_type::MDAT@,
                cmaf::joined(samples, samples.len()),
            ),
            samples,
        ),
{
    let payload = fragment_payload(sequence_number, track_id, time, trun);
    let data = cmaf::joined(samples, samples.len());
    assert(transmux::moof_box(sequence_number, track_id, time, trun) == cmaf::boxed(
        box_type::MOOF@,
        payload,
    ));
    assert(cmaf::boxed(box_type::MOOF@, payload).len() == payload.len() + 8);
    segment::written_segment_reads_back(payload, data);
    lemma_fragment_says(sequence_number, track_id, time, trun, v);
    lemma_sizes_listed(v.entries, sample_sizes(samples), 0);
    assert(sample_sizes(samples).take(0) =~= Seq::empty());
}

/// The samples of a list of video packets.
pub open spec fn video_samples(packets: Seq<PesView>) -> Seq<Seq<u8>> {
    packets.map_values(|p: PesView| transmux::avcc_of(p.data))
}

/// The samples of a list of audio packets.
pub open spec fn audio_samples(packets: Seq<PesView>) -> Seq<Seq<u8>> {
    packets.map_values(|p: PesView| transmux::adts_from(p.data, 0, Seq::empty()))
}

pub proof fn lemma_video_data(packets: Seq<PesView>, n: nat)
    requires
        n <= packets.len(),
    ensures
        transmux::video_data(packets, n) == cmaf::joined(video_samples(packets), n),
    decreases n,
{
    if n > 0 {
        lemma_video_data(packets, (n - 1) as nat);
    }
}

pub proof fn lemma_audio_data(packets: Seq<PesView>, n: nat)
    requires
        n <= packets.len(),
    ensures
        transmux::audio_data(packets, n) == cmaf::joined(audio_samples(packets), n),
    decreases n,
{
    if n > 0 {
        lemma_audio_data(packets, (n - 1) as nat);
    }
}

/// The fragment for video packets with its sample data.
pub open spec fn video_fragment(video: Seq<PesView>, sequence_number: u32) -> Seq<u8> {
    transmux::video_moof(video, sequence_number, 1) + cmaf::boxed(
        box_type::MDAT@,
        transmux::video_data(video, video.len()),
    )
}

/// The fragment for audio packets with its sample data.
pub open spec fn audio_fragment(
    audio: Seq<PesView>,
    sequence_number: u32,
    track_id: u32,
    sample_rate: u32,
) -> Seq<u8> {
    transmux::audio_moof(audio, sequence_number, track_id, sample_rate) + cmaf::boxed(
        box_type::MDAT@,
        transmux::audio_data(audio, audio.len()),
    )
}

proof fn lemma_video_fragment(video: Seq<PesView>, sequence_number: u32)
    requires
        video.len() <= u32::MAX,
        video_fragment(video, sequence_number).len() <= u32::MAX,
    ensures
        holds_samples(video_fragment(video, sequence_number), video_samples(video)),
{
    let samples = video_samples(video);
    let durations = Seq::new(video.len(), |i: int| transmux::video_duration(video, i));
    let sizes = Seq::new(video.len(), |i: int| transmux::avcc_of(video[i].data).len() as u32);
    let flags = Seq::new(video.len(), |i: int| transmux::video_flags(video[i]));
    let trun = transmux::video_trun(durations, sizes, flags);
    let v = run_info(video_entries(durations, sizes, flags), true);
    let time = transmux::base_time(video);
    let moof = transmux::moof_box(sequence_number, 1, time, trun);
    lemma_video_data(video, video.len());
    assert(transmux::video_moof(video, sequence_number, 1) == moof);
    assert(moof.len() >= trun.len());
    video_trun_round_trip(durations, sizes, flags);
    lemma_fragment_reads_back(sequence_number, 1, time, trun, v, samples);
}

proof fn lemma_audio_fragment(
    audio: Seq<PesView>,
    sequence_number: u32,
    track_id: u32,
    sample_rate: u32,
)
    requires
        audio.len() <= u32::MAX,
        audio_fragment(audio, sequence_number, track_id, sample_rate).len() <= u32::MAX,
    ensures
        holds_samples(
            audio_fragment(audio, sequence_number, track_id, sample_rate),
            audio_samples(audio),
        ),
{
    let samples = audio_samples(audio);
    let durations = Seq::new(audio.len(), |i: int| 1024u32);
    let sizes = Seq::new(
        audio.len(),
        |i: int| transmux::adts_from(audio[i].data, 0, Seq::empty()).len() as u32,
    );
    let trun = transmux::audio_trun(durations, sizes);
    let v = run_info(audio_entries(durations, sizes), false);
    let time = transmux::audio_time(audio, sample_rate);
    let moof = transmux::moof_box(sequence_number, track_id, time, trun);
    lemma_audio_data(audio, audio.len());
    assert(transmux::audio_moof(audio, sequence_number, track_id, sample_rate) == moof);
    assert(moof.len() >= trun.len());
    audio_trun_round_trip(durations, sizes);
    lemma_fragment_reads_back(sequence_number, track_id, time, trun, v, samples);
}

/// A segment that was transmuxed without audio reads back as the samples of its video packets.
pub proof fn transmuxed_video_reads_back(
    video: Seq<PesView>,
    audio: Seq<PesView>,
    config: Option<AudioView>,
    sequence_number: u32,
    out: Seq<u8>,
)
    requires
        0 < video.len() <= u32::MAX,
        config is None || audio.len() == 0,
        transmux::transmuxed(video, audio, true, config, sequence_number) == Ok::<
            Seq<u8>,
            ErrorView,
        >(out),
        out.len() <= u32::MAX,
    ensures
        holds_samples(out, video_samples(video)),
{
    assert(out =~= video_fragment(video, sequence_number));
    lemma_video_fragment(video, sequence_number);
}

/// A segment that was transmuxed without video reads back as the samples of its audio packets.
pub proof fn transmuxed_audio_reads_back(
    video: Seq<PesView>,
    with_video: bool,
    audio: Seq<PesView>,
    config: AudioView,
    sequence_number: u32,
    out: Seq<u8>,
)
    requires
        0 < audio.len() <= u32::MAX,
        !with_video || video.len() == 0,
        transmux::transmuxed(video, audio, with_video, Some(config), sequence_number) == Ok::<
            Seq<u8>,
            ErrorView,
        >(out),
        out.len() <= u32::MAX,
    ensures
        holds_samples(out, audio_samples(audio)),
{
    let track_id: u32 = if with_video {
        2
    } else {
        1
    };
    assert(out =~= audio_fragment(audio, sequence_number, track_id, config.sample_rate));
    lemma_audio_fragment(audio, sequence_number, track_id, config.sample_rate);
}

/// A segment that was transmuxed from both is a fragment that reads back as the samples of the
/// video packets, and after it one that reads back as the samples of the audio packets.
pub proof fn transmuxed_tracks_read_back(
    video: Seq<PesView>,
    audio: Seq<PesView>,
    config: AudioView,
    sequence_number: u32,
    out: Seq<u8>,
)
    requires
        0 < video.len() <= u32::MAX,
        0 < audio.len() <= u32::MAX,
        transmux::transmuxed(video, audio, true, Some(config), sequence_number) == Ok::<
            Seq<u8>,
            ErrorView,
        >(out),
        out.len() <= u32::MAX,
    ensures
        ({
            let first = video_fragment(video, sequence_number);
            let second = audio_fragment(audio, sequence_number, 2, config.sample_rate);
            &&& out == first + second
            &&& holds_samples(first, video_samples(video))
            &&& holds_samples(second, audio_samples(audio))
        }),
{
    lemma_video_fragment(video, sequence_number);
    lemma_audio_fragment(audio, sequence_number, 2, config.sample_rate);
}

/// Whether a segment is a file type box and a movie box with the given payload, and nothing
/// else.
pub open spec fn ftyp_then_moov(s: Seq<u8>, payload: Seq<u8>) -> bool {
    let r = cmaf::run(s);
    &&& r.fault is None
    &&& r.headers.len() == 2
    &&& r.headers[0].box_type@ == box_type::FTYP@
    &&& r.headers[1].box_type@ == box_type::MOOV@
    &&& cmaf::box_body(s, r.headers[1]) == payload
}

proof fn lemma_ftyp_then_moov(payload: Seq<u8>)
    requires
        payload.len() + 8 <= u32::MAX,
    ensures
        ftyp_then_moov(
            cmaf::boxed(box_type::FTYP@, transmux::ftyp_payload()) + cmaf::boxed(
                box_type::MOOV@,
                payload,
            ),
            payload,
        ),
{
    round_trip::boxed_reads_back(box_type::FTYP@, transmux::ftyp_payload());
    round_trip::boxed_reads_back(box_type::MOOV@, payload);
    let a = cmaf::boxed(box_type::FTYP@, transmux::ftyp_payload());
    let b = cmaf::boxed(box_type::MOOV@, payload);
    assert(a.len() == 32);
    assert(b.len() == payload.len() + 8);
    lemma_run_of_two(a, b);
}

/// A synthesized init segment is a file type box and a movie box, and nothing else.
pub proof fn synthesized_init_is_ftyp_then_moov(
    video: Option<VideoView>,
    audio: Option<AudioView>,
)
    requires
        video is Some || audio is Some,
        transmux::moov_payload(video, audio).len() + 8 <= u32::MAX,
    ensures
        transmux::synthesized_init(video, audio) matches Ok(s) && ftyp_then_moov(
            s,
            transmux::moov_payload(video, audio),
        ),
{
    lemma_ftyp_then_moov(transmux::moov_payload(video, audio));
}

/// An AAC sampling frequency that has an index is found by its index again.
pub proof fn rates_have_an_index(rate: u32)
    requires
        rate == 96000 || rate == 88200 || rate == 64000 || rate == 48000 || rate == 44100 || rate
            == 32000 || rate == 24000 || rate == 22050 || rate == 16000 || rate == 12000 || rate
            == 11025 || rate == 8000,
    ensures
        transmux::rate_of(transmux::rate_index(rate)) == rate,
{
}

} // verus!
