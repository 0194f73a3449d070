//! What the box builders write, the box parsers read back.

use crate::bytes;
use crate::error::ErrorView;
use crate::media::cmaf;
use crate::media::cmaf::{BoxHeader, EmsgView, PsshView, SencEntryView, SencView, SubsampleEntry};
use crate::text;
use vstd::prelude::*;

verus! {

/// Whether `p` is one box that says how long it is: its size field is not the open-ended
/// zero and counts all of its bytes.
#[verifier::opaque]
pub open spec fn whole_box(p: Seq<u8>) -> bool {
    match cmaf::header_at(p, 0) {
        Ok(h) => bytes::be32(p, 0) != 0 && h.size == p.len() && h.header_size <= h.size,
        Err(_) => false,
    }
}

/// The header of a whole box.
#[verifier::opaque]
pub open spec fn head_of(p: Seq<u8>) -> BoxHeader {
    cmaf::header_at(p, 0)->Ok_0
}

/// The type of a whole box.
pub open spec fn type_of(p: Seq<u8>) -> Seq<u8> {
    head_of(p).box_type@
}

/// The payload of a whole box.
pub open spec fn payload_of(p: Seq<u8>) -> Seq<u8> {
    p.skip(head_of(p).header_size as int)
}

/// Whether `parts` are whole boxes that make up `s`, one after the other.
pub open spec fn made_of(s: Seq<u8>, parts: Seq<Seq<u8>>) -> bool {
    &&& s == cmaf::joined(parts, parts.len())
    &&& forall|k: int| 0 <= k < parts.len() ==> whole_box(#[trigger] parts[k])
}

/// Whether `s` is a run of whole boxes.
pub open spec fn whole_boxes(s: Seq<u8>) -> bool {
    exists|parts: Seq<Seq<u8>>| made_of(s, parts)
}

/// The boxes that a run of whole boxes is made of.
pub open spec fn boxes_of(s: Seq<u8>) -> Seq<Seq<u8>> {
    choose|parts: Seq<Seq<u8>>| made_of(s, parts)
}

/// Whether the header `h` in `s` stands for the box `p`.
pub open spec fn stands_for(s: Seq<u8>, h: BoxHeader, p: Seq<u8>) -> bool {
    &&& h.box_type@ == type_of(p)
    &&& cmaf::box_bytes(s, h) == p
    &&& cmaf::box_body(s, h) == payload_of(p)
}

/// A whole box has a four-byte type, a header of eight or sixteen bytes, and its payload
/// after that.
pub proof fn lemma_whole_box(p: Seq<u8>)
    requires
        whole_box(p),
    ensures
        type_of(p).len() == 4,
        head_of(p).header_size == 8 || head_of(p).header_size == 16,
        payload_of(p).len() + head_of(p).header_size == p.len(),
{
    reveal(whole_box);
    reveal(head_of);
}

/// A whole box is read the same wherever it stands.
pub proof fn lemma_header_moves(before: Seq<u8>, p: Seq<u8>, after: Seq<u8>)
    requires
        whole_box(p),
        before.len() + p.len() + after.len() <= u64::MAX,
    ensures
        ({
            let s = before + p + after;
            match cmaf::header_at(s, before.len() as int) {
                Ok(h) => stands_for(s, h, p) && cmaf::next_start(s.len(), h) == before.len()
                    + p.len() && h.offset == before.len() && h.size == p.len() && h.header_size
                    == head_of(p).header_size,
                Err(_) => false,
            }
        }),
{
    reveal(whole_box);
    reveal(head_of);
    let s = before + p + after;
    let n = before.len() as int;
    assert(forall|i: int| 0 <= i < p.len() ==> s[n + i] == p[i]);
    let h = cmaf::header_at(s, n)->Ok_0;
    assert(h.box_type@ =~= type_of(p));
    assert(cmaf::box_bytes(s, h) =~= p);
    assert(cmaf::box_body(s, h) =~= payload_of(p));
}

/// The box that a builder writes is a whole box with an eight-byte header and with the type
/// and the payload that went in.
pub proof fn boxed_reads_back(code: Seq<u8>, payload: Seq<u8>)
    requires
        code.len() == 4,
        payload.len() + 8 <= u32::MAX,
    ensures
        whole_box(cmaf::boxed(code, payload)),
        type_of(cmaf::boxed(code, payload)) == code,
        payload_of(cmaf::boxed(code, payload)) == payload,
        head_of(cmaf::boxed(code, payload)).header_size == 8,
{
    reveal(whole_box);
    reveal(head_of);
    let p = cmaf::boxed(code, payload);
    assert(p.subrange(0, 4) =~= bytes::bytes32((payload.len() + 8) as u32));
    bytes::lemma_be32_of_bytes32(p, 0, (payload.len() + 8) as u32);
    assert(type_of(p) =~= code);
    assert(payload_of(p) =~= payload);
}

/// A whole box with an eight-byte header is the box that a builder writes around its payload.
pub proof fn compact_box_is_rebuilt(p: Seq<u8>)
    requires
        whole_box(p),
        head_of(p).header_size == 8,
    ensures
        cmaf::boxed(type_of(p), payload_of(p)) == p,
{
    reveal(whole_box);
    reveal(head_of);
    assert(p.len() == bytes::be32(p, 0));
    bytes::lemma_bytes32_of_be32(p, 0);
    assert(type_of(p) =~= p.subrange(4, 8));
    assert(p.subrange(0, 4) + p.subrange(4, 8) + p.skip(8) =~= p);
    assert(cmaf::boxed(type_of(p), payload_of(p)) == p);
}

/// The bytes from a box on are that box and what follows it.
pub proof fn lemma_joined_splits(parts: Seq<Seq<u8>>, k: nat, n: nat)
    requires
        k < n <= parts.len(),
    ensures
        exists|after: Seq<u8>|
            cmaf::joined(parts, n) == #[trigger] (cmaf::joined(parts, k) + parts[k as int] + after),
    decreases n,
{
    if k + 1 == n {
        assert(cmaf::joined(parts, n) =~= cmaf::joined(parts, k) + parts[k as int] + Seq::empty());
    } else {
        lemma_joined_splits(parts, k, (n - 1) as nat);
        let after = choose|after: Seq<u8>|
            cmaf::joined(parts, (n - 1) as nat) == #[trigger] (cmaf::joined(parts, k)
                + parts[k as int] + after);
        assert(cmaf::joined(parts, n) =~= cmaf::joined(parts, k) + parts[k as int] + (after
            + parts[n - 1]));
    }
}

/// The run that starts at box `k` of a run of whole boxes.
proof fn lemma_run_from_box(s: Seq<u8>, parts: Seq<Seq<u8>>, k: nat)
    requires
        made_of(s, parts),
        k <= parts.len(),
        s.len() <= u64::MAX,
    ensures
        ({
            let r = cmaf::run_from(s, cmaf::joined(parts, k).len() as int);
            &&& r.fault is None
            &&& r.headers.len() == parts.len() - k
            &&& forall|j: int|
                0 <= j < r.headers.len() ==> stands_for(s, #[trigger] r.headers[j], parts[k + j])
        }),
    decreases parts.len() - k,
{
    let at = cmaf::joined(parts, k).len();
    if k < parts.len() {
        lemma_joined_splits(parts, k, parts.len());
        let after = choose|after: Seq<u8>|
            cmaf::joined(parts, parts.len()) == #[trigger] (cmaf::joined(parts, k) + parts[k as int]
                + after);
        let p = parts[k as int];
        assert(whole_box(p));
        lemma_header_moves(cmaf::joined(parts, k), p, after);
        lemma_run_from_box(s, parts, k + 1);
        let h = cmaf::header_at(s, at as int)->Ok_0;
        assert(cmaf::next_start(s.len(), h) == cmaf::joined(parts, k + 1).len());
        let rest = cmaf::run_from(s, cmaf::joined(parts, k + 1).len() as int);
        let r = cmaf::run_from(s, at as int);
        assert(r.headers == seq![h] + rest.headers);
        assert forall|j: int| 0 <= j < r.headers.len() implies stands_for(
            s,
            #[trigger] r.headers[j],
            parts[k + j],
        ) by {
            if j > 0 {
                assert(r.headers[j] == rest.headers[j - 1]);
                assert(parts[k + 1 + (j - 1)] == parts[k + j]);
            }
        }
    }
}

/// Stepping through a run of whole boxes hands out every box, in order, and nothing else.
pub proof fn run_hands_out_every_box(s: Seq<u8>, parts: Seq<Seq<u8>>)
    requires
        made_of(s, parts),
        s.len() <= u64::MAX,
    ensures
        cmaf::run(s).fault is None,
        cmaf::run(s).headers.len() == parts.len(),
        forall|k: int|
            0 <= k < parts.len() ==> stands_for(
                s,
                #[trigger] cmaf::run(s).headers[k],
                parts[k],
            ),
{
    lemma_run_from_box(s, parts, 0);
    assert forall|k: int| 0 <= k < parts.len() implies stands_for(
        s,
        #[trigger] cmaf::run(s).headers[k],
        parts[k],
    ) by {
        assert(parts[0 + k] == parts[k]);
    }
}

/// A run of whole boxes is made of them in one way only.
pub proof fn lemma_made_one_way(s: Seq<u8>, parts: Seq<Seq<u8>>)
    requires
        made_of(s, parts),
        s.len() <= u64::MAX,
    ensures
        whole_boxes(s),
        boxes_of(s) == parts,
{
    let other = boxes_of(s);
    run_hands_out_every_box(s, parts);
    run_hands_out_every_box(s, other);
    assert forall|k: int| 0 <= k < parts.len() implies other[k] == parts[k] by {
        let h = cmaf::run(s).headers[k];
        assert(stands_for(s, h, parts[k]));
        assert(stands_for(s, h, other[k]));
    }
    assert(other =~= parts);
}


/// Joining the same boxes gives the same bytes.
pub proof fn lemma_joined_same(a: Seq<Seq<u8>>, b: Seq<Seq<u8>>, n: nat)
    requires
        forall|k: int| 0 <= k < n ==> a[k] == b[k],
    ensures
        cmaf::joined(a, n) == cmaf::joined(b, n),
    decreases n,
{
    if n > 0 {
        lemma_joined_same(a, b, (n - 1) as nat);
    }
}


/// Each box is no longer than the run that it is part of.
pub proof fn lemma_part_length(parts: Seq<Seq<u8>>, k: int, n: nat)
    requires
        0 <= k < n,
    ensures
        parts[k].len() <= cmaf::joined(parts, n).len(),
    decreases n,
{
    if k + 1 < n {
        lemma_part_length(parts, k, (n - 1) as nat);
    }
}


/// Joining one more box appends it.
pub proof fn lemma_joined_push(parts: Seq<Seq<u8>>, p: Seq<u8>)
    ensures
        cmaf::joined(parts.push(p), parts.len() + 1) == cmaf::joined(parts, parts.len()) + p,
{
    lemma_joined_same(parts.push(p), parts, parts.len());
}

/// Subsample range `k` takes up six bytes, after those of the ranges before it.
proof fn lemma_subsample_place(subs: Seq<SubsampleEntry>, k: int, n: nat)
    requires
        0 <= k < n <= subs.len(),
    ensures
        cmaf::subsample_bytes(subs, n).len() == 6 * n,
        cmaf::subsample_bytes(subs, n).subrange(6 * k, 6 * k + 2) == bytes::bytes16(
            subs[k].clear_bytes,
        ),
        cmaf::subsample_bytes(subs, n).subrange(6 * k + 2, 6 * k + 6) == bytes::bytes32(
            subs[k].encrypted_bytes,
        ),
    decreases n,
{
    let all = cmaf::subsample_bytes(subs, n);
    let most = cmaf::subsample_bytes(subs, (n - 1) as nat);
    if n > 1 {
        lemma_subsample_place(subs, if k + 1 < n { k } else { 0 }, (n - 1) as nat);
    }
    assert(most.len() == 6 * (n - 1));
    if k + 1 < n {
        assert(all.subrange(6 * k, 6 * k + 2) =~= most.subrange(6 * k, 6 * k + 2));
        assert(all.subrange(6 * k + 2, 6 * k + 6) =~= most.subrange(6 * k + 2, 6 * k + 6));
    } else {
        assert(all.subrange(6 * k, 6 * k + 2) =~= bytes::bytes16(subs[k].clear_bytes));
        assert(all.subrange(6 * k + 2, 6 * k + 6) =~= bytes::bytes32(
            subs[k].encrypted_bytes,
        ));
    }
}

/// Subsample ranges are read back from where they were written.
proof fn lemma_subsamples_read_back(s: Seq<u8>, at: int, subs: Seq<SubsampleEntry>, k: int)
    requires
        0 <= k <= subs.len(),
        0 <= at,
        at + 6 * subs.len() <= s.len(),
        s.subrange(at as int, at + 6 * subs.len()) == cmaf::subsample_bytes(subs, subs.len()),
    ensures
        cmaf::senc_subsamples(s, at + 6 * k, (subs.len() - k) as nat, subs.take(k)) == Ok::<
            (Seq<SubsampleEntry>, int),
            ErrorView,
        >((subs, at + 6 * subs.len())),
    decreases subs.len() - k,
{
    if k == subs.len() {
        assert(subs.take(k) =~= subs);
    } else {
        let all = cmaf::subsample_bytes(subs, subs.len());
        lemma_subsample_place(subs, k, subs.len());
        let off = at + 6 * k;
        assert(s.subrange(off, off + 2) =~= all.subrange(6 * k, 6 * k + 2));
        assert(s.subrange(off + 2, off + 6) =~= all.subrange(6 * k + 2, 6 * k + 6));
        bytes::lemma_be16_of_bytes16(s, off, subs[k].clear_bytes);
        bytes::lemma_be32_of_bytes32(s, off + 2, subs[k].encrypted_bytes);
        assert(subs.take(k).push(subs[k]) =~= subs.take(k + 1));
        lemma_subsamples_read_back(s, at, subs, k + 1);
    }
}

/// Whether a senc entry can be told apart from what follows it: its IV has the size that the
/// track gives, and it has subsample ranges exactly when the box says so.
pub open spec fn entry_fits(e: SencEntryView, with_subs: bool, iv_size: u8) -> bool {
    &&& e.iv.len() == iv_size
    &&& match e.subsamples {
        Some(subs) => with_subs && subs.len() <= u16::MAX,
        None => !with_subs,
    }
}

/// The byte strings of a list of senc entries.
spec fn entry_strings(entries: Seq<SencEntryView>, with_subs: bool) -> Seq<Seq<u8>> {
    entries.map_values(|e: SencEntryView| cmaf::senc_entry_bytes(e, with_subs))
}

proof fn lemma_entries_joined(entries: Seq<SencEntryView>, with_subs: bool, n: nat)
    requires
        n <= entries.len(),
    ensures
        cmaf::senc_entries_bytes(entries, with_subs, n) == cmaf::joined(
            entry_strings(entries, with_subs),
            n,
        ),
    decreases n,
{
    if n > 0 {
        lemma_entries_joined(entries, with_subs, (n - 1) as nat);
    }
}

/// One senc entry is read back from where it was written.
proof fn lemma_entry_reads_back(
    s: Seq<u8>,
    before: Seq<u8>,
    e: SencEntryView,
    with_subs: bool,
    iv_size: u8,
    after: Seq<u8>,
)
    requires
        entry_fits(e, with_subs, iv_size),
        s == before + cmaf::senc_entry_bytes(e, with_subs) + after,
    ensures
        cmaf::senc_entry(s, iv_size as nat, with_subs, before.len() as int) == Ok::<
            (SencEntryView, int),
            ErrorView,
        >((e, (before.len() + cmaf::senc_entry_bytes(e, with_subs).len()) as int)),
{
    let off = before.len() as int;
    let own = cmaf::senc_entry_bytes(e, with_subs);
    assert(s.subrange(off, off + iv_size) =~= e.iv);
    if with_subs {
        let subs = e.subsamples->0;
        let at = off + iv_size;
        if subs.len() > 0 {
            lemma_subsample_place(subs, 0, subs.len());
        }
        assert(s.subrange(at, at + 2) =~= bytes::bytes16(subs.len() as u16));
        bytes::lemma_be16_of_bytes16(s, at, subs.len() as u16);
        assert(s.subrange(at + 2, at + 2 + 6 * subs.len()) =~= cmaf::subsample_bytes(
            subs,
            subs.len(),
        ));
        lemma_subsamples_read_back(s, at + 2, subs, 0);
        assert(subs.take(0) =~= Seq::empty());
        assert(own.len() == iv_size + 2 + 6 * subs.len());
    } else {
        assert(own =~= e.iv);
    }
}

#[verifier::rlimit(40)]
proof fn lemma_entries_read_back(
    s: Seq<u8>,
    before: Seq<u8>,
    entries: Seq<SencEntryView>,
    with_subs: bool,
    iv_size: u8,
    k: int,
)
    requires
        0 <= k <= entries.len(),
        forall|i: int|
            0 <= i < entries.len() ==> entry_fits(#[trigger] entries[i], with_subs, iv_size),
        s == before + cmaf::joined(entry_strings(entries, with_subs), entries.len()),
    ensures
        cmaf::senc_entries(
            s,
            iv_size as nat,
            with_subs,
            (before.len() + cmaf::joined(entry_strings(entries, with_subs), k as nat).len()) as int,
            (entries.len() - k) as nat,
            entries.take(k),
        ) == Ok::<Seq<SencEntryView>, ErrorView>(entries),
    decreases entries.len() - k,
{
    let strings = entry_strings(entries, with_subs);
    if k == entries.len() {
        assert(entries.take(k) =~= entries);
    } else {
        lemma_joined_splits(strings, k as nat, strings.len());
        let after = choose|after: Seq<u8>|
            cmaf::joined(strings, strings.len()) == #[trigger] (cmaf::joined(strings, k as nat)
                + strings[k] + after);
        let e = entries[k];
        let front = before + cmaf::joined(strings, k as nat);
        assert(entry_fits(e, with_subs, iv_size));
        assert(s =~= front + cmaf::senc_entry_bytes(e, with_subs) + after);
        lemma_entry_reads_back(s, front, e, with_subs, iv_size, after);
        assert(entries.take(k).push(e) =~= entries.take(k + 1));
        lemma_entries_read_back(s, before, entries, with_subs, iv_size, k + 1);
    }
}

/// The flags and the entry count of a senc payload, in front of the entries.
proof fn lemma_senc_head(s: Seq<u8>, flags: u32, count: u32, rest: Seq<u8>)
    requires
        s == seq![0u8] + bytes::bytes24(flags) + bytes::bytes32(count) + rest,
        flags == 0 || flags == 2,
    ensures
        8 <= s.len(),
        bytes::be24(s, 1) == flags,
        bytes::be32(s, 4) == count,
        (flags & 0x02 != 0) == (flags == 2),
{
    assert(s.subrange(4, 8) =~= bytes::bytes32(count));
    bytes::lemma_be32_of_bytes32(s, 4, count);
    assert(2u32 & 0x02 != 0) by (bit_vector);
    assert(0u32 & 0x02 == 0) by (bit_vector);
}

/// Parsing a senc payload gives back the entries that it was built from.
pub proof fn senc_round_trip(entries: Seq<SencEntryView>, with_subs: bool, iv_size: u8)
    requires
        entries.len() <= u32::MAX,
        forall|i: int|
            0 <= i < entries.len() ==> entry_fits(#[trigger] entries[i], with_subs, iv_size),
    ensures
        cmaf::senc_of(cmaf::senc_payload(entries, with_subs), iv_size) == Ok::<SencView, ErrorView>(
            SencView {
                flags: if with_subs {
                    2
                } else {
                    0
                },
                sample_count: entries.len() as u32,
                entries,
            },
        ),
{
    let s = cmaf::senc_payload(entries, with_subs);
    let flags: u32 = if with_subs {
        2
    } else {
        0
    };
    let before = seq![0u8] + bytes::bytes24(flags) + bytes::bytes32(entries.len() as u32);
    lemma_senc_head(
        s,
        flags,
        entries.len() as u32,
        cmaf::senc_entries_bytes(entries, with_subs, entries.len()),
    );
    lemma_entries_joined(entries, with_subs, entries.len());
    lemma_entries_read_back(s, before, entries, with_subs, iv_size, 0);
    assert(entries.take(0) =~= Seq::empty());
}

proof fn lemma_parsed_subsamples(s: Seq<u8>, off: int, n: nat, got: Seq<SubsampleEntry>)
    ensures
        cmaf::senc_subsamples(s, off, n, got) matches Ok((subs, _)) ==> subs.len() == got.len() + n,
    decreases n,
{
    if n > 0 && off + 6 <= s.len() {
        let sub = SubsampleEntry {
            clear_bytes: bytes::be16(s, off),
            encrypted_bytes: bytes::be32(s, off + 2),
        };
        lemma_parsed_subsamples(s, off + 6, (n - 1) as nat, got.push(sub));
    }
}

proof fn lemma_parsed_entries(
    s: Seq<u8>,
    iv_size: u8,
    with_subs: bool,
    off: int,
    n: nat,
    got: Seq<SencEntryView>,
)
    requires
        forall|i: int| 0 <= i < got.len() ==> entry_fits(#[trigger] got[i], with_subs, iv_size),
        0 <= off,
    ensures
        cmaf::senc_entries(s, iv_size as nat, with_subs, off, n, got) matches Ok(entries) ==> {
            forall|i: int|
                0 <= i < entries.len() ==> entry_fits(#[trigger] entries[i], with_subs, iv_size)
        },
    decreases n,
{
    if n > 0 {
        if let Ok((entry, end)) = cmaf::senc_entry(s, iv_size as nat, with_subs, off) {
            if with_subs {
                let at = off + iv_size;
                lemma_parsed_subsamples(s, at + 2, bytes::be16(s, at) as nat, Seq::empty());
                lemma_subsamples_end(s, at + 2, bytes::be16(s, at) as nat, Seq::empty());
            }
            assert(entry_fits(entry, with_subs, iv_size));
            lemma_parsed_entries(
                s,
                iv_size,
                with_subs,
                end,
                (n - 1) as nat,
                got.push(entry),
            );
        }
    }
}

proof fn lemma_subsamples_end(s: Seq<u8>, off: int, n: nat, got: Seq<SubsampleEntry>)
    ensures
        cmaf::senc_subsamples(s, off, n, got) matches Ok((_, end)) ==> off <= end,
    decreases n,
{
    if n > 0 && off + 6 <= s.len() {
        let sub = SubsampleEntry {
            clear_bytes: bytes::be16(s, off),
            encrypted_bytes: bytes::be32(s, off + 2),
        };
        lemma_subsamples_end(s, off + 6, (n - 1) as nat, got.push(sub));
    }
}

/// Every entry of a senc box has an IV of the size that the track gives, and subsample ranges
/// exactly when the flags of the box say so.
pub proof fn parsed_entries_fit(s: Seq<u8>, iv_size: u8)
    ensures
        cmaf::senc_of(s, iv_size) matches Ok(v) ==> {
            forall|i: int|
                0 <= i < v.entries.len() ==> entry_fits(
                    #[trigger] v.entries[i],
                    (v.flags / 2) % 2 == 1,
                    iv_size,
                )
        },
{
    if s.len() >= 8 {
        let flags = bytes::be24(s, 1);
        assert((flags & 0x02 != 0) == ((flags / 2) % 2 == 1)) by (bit_vector);
        lemma_parsed_entries(
            s,
            iv_size,
            flags & 0x02 != 0,
            8,
            bytes::be32(s, 4) as nat,
            Seq::empty(),
        );
    }
}

/// Key identifiers are read back from where they were written.
proof fn lemma_kids_read_back(s: Seq<u8>, before: Seq<u8>, kids: Seq<Seq<u8>>, after: Seq<u8>, k: int)
    requires
        0 <= k <= kids.len(),
        forall|i: int| 0 <= i < kids.len() ==> (#[trigger] kids[i]).len() == 16,
        s == before + cmaf::joined(kids, kids.len()) + after,
    ensures
        cmaf::pssh_kids(
            s,
            (before.len() + cmaf::joined(kids, k as nat).len()) as int,
            (kids.len() - k) as nat,
            kids.take(k),
        ) == Ok::<(Seq<Seq<u8>>, int), ErrorView>((kids, s.len() - after.len())),
    decreases kids.len() - k,
{
    if k == kids.len() {
        assert(kids.take(k) =~= kids);
    } else {
        lemma_joined_splits(kids, k as nat, kids.len());
        let rest = choose|rest: Seq<u8>|
            cmaf::joined(kids, kids.len()) == #[trigger] (cmaf::joined(kids, k as nat) + kids[k]
                + rest);
        let off = (before.len() + cmaf::joined(kids, k as nat).len()) as int;
        assert(kids[k].len() == 16);
        assert(s =~= before + cmaf::joined(kids, k as nat) + kids[k] + rest + after);
        assert(s.subrange(off, off + 16) =~= kids[k]);
        assert(kids.take(k).push(kids[k]) =~= kids.take(k + 1));
        lemma_kids_read_back(s, before, kids, after, k + 1);
    }
}

/// Parsing a PSSH payload gives back what it was built from. Version 0 has no room for key
/// identifiers.
pub proof fn pssh_round_trip(p: PsshView)
    requires
        p.system_id.len() == 16,
        p.key_ids.len() <= u32::MAX,
        p.version == 0 ==> p.key_ids.len() == 0,
        forall|i: int| 0 <= i < p.key_ids.len() ==> (#[trigger] p.key_ids[i]).len() == 16,
        p.data.len() <= u32::MAX,
    ensures
        cmaf::pssh_of(cmaf::pssh_payload(p)) == Ok::<PsshView, ErrorView>(p),
{
    let s = cmaf::pssh_payload(p);
    let after = bytes::bytes32(p.data.len() as u32) + p.data;
    let head = seq![p.version] + bytes::zeros(3) + p.system_id;
    assert(s.subrange(4, 20) =~= p.system_id);
    if p.version >= 1 {
        let before = head + bytes::bytes32(p.key_ids.len() as u32);
        assert(s =~= before + cmaf::joined(p.key_ids, p.key_ids.len()) + after);
        assert(s.subrange(20, 24) =~= bytes::bytes32(p.key_ids.len() as u32));
        bytes::lemma_be32_of_bytes32(s, 20, p.key_ids.len() as u32);
        assert(p.key_ids.take(0) =~= Seq::empty());
        lemma_kids_read_back(s, before, p.key_ids, after, 0);
    } else {
        assert(p.key_ids =~= Seq::empty());
        assert(s =~= head + after);
    }
    let off = s.len() - after.len();
    assert(s.subrange(off, off + 4) =~= bytes::bytes32(p.data.len() as u32));
    bytes::lemma_be32_of_bytes32(s, off, p.data.len() as u32);
    assert(bytes::clamped(s, off + 4, off + 4 + p.data.len()) =~= p.data);
}

/// Only the zero character has a zero byte.
proof fn lemma_encoded_bytes(v: u32)
    by (bit_vector)
    ensures
        v <= 0x7F && v != 0 ==> vstd::utf8::leading_byte_width_1(v) != 0,
        vstd::utf8::leading_byte_width_2(v) != 0,
        vstd::utf8::leading_byte_width_3(v) != 0,
        vstd::utf8::leading_byte_width_4(v) != 0,
        vstd::utf8::last_continuation_byte(v) != 0,
        vstd::utf8::second_last_continuation_byte(v) != 0,
        vstd::utf8::third_last_continuation_byte(v) != 0,
{
}

proof fn lemma_encoded_char(c: char)
    requires
        c != '\0',
    ensures
        forall|i: int|
            0 <= i < vstd::utf8::encode_scalar(c as u32).len() ==> #[trigger]
                vstd::utf8::encode_scalar(c as u32)[i] != 0,
{
    lemma_encoded_bytes(c as u32);
}

/// Text without the zero character has no zero byte.
proof fn lemma_no_zero_byte(t: Seq<char>)
    requires
        !t.contains('\0'),
    ensures
        forall|i: int| 0 <= i < cmaf::utf8(t).len() ==> #[trigger] cmaf::utf8(t)[i] != 0,
    decreases t.len(),
{
    if t.len() > 0 {
        assert(t[0] != '\0');
        assert(!t.drop_first().contains('\0')) by {
            if t.drop_first().contains('\0') {
                let k = choose|k: int| 0 <= k < t.drop_first().len() && t.drop_first()[k] == '\0';
                assert(t[k + 1] == '\0');
            }
        }
        lemma_no_zero_byte(t.drop_first());
        let first = vstd::utf8::encode_scalar(t[0] as u32);
        let rest = cmaf::utf8(t.drop_first());
        lemma_encoded_char(t[0]);
        assert(cmaf::utf8(t) == first + rest);
        assert forall|i: int| 0 <= i < cmaf::utf8(t).len() implies #[trigger] cmaf::utf8(t)[i]
            != 0 by {
            if i >= first.len() {
                assert(cmaf::utf8(t)[i] == rest[i - first.len()]);
            } else {
                assert(cmaf::utf8(t)[i] == first[i]);
            }
        }
    }
}

proof fn lemma_nul_at(s: Seq<u8>, i: int, end: int)
    requires
        0 <= i <= end < s.len(),
        s[end] == 0,
        forall|k: int| i <= k < end ==> s[k] != 0,
    ensures
        cmaf::nul_at(s, i) == end,
    decreases end - i,
{
    if i < end {
        lemma_nul_at(s, i + 1, end);
    }
}

/// A zero-terminated text is found where it was written.
pub proof fn lemma_nul_string(before: Seq<u8>, t: Seq<char>, after: Seq<u8>)
    requires
        !t.contains('\0'),
    ensures
        ({
            let s = before + cmaf::utf8(t) + seq![0u8] + after;
            let off = before.len() as int;
            &&& cmaf::nul_string(s, off) == Ok::<(Seq<char>, int), ErrorView>(
                (text::lossy_text(cmaf::utf8(t)), (cmaf::utf8(t).len() + 1) as int),
            )
            &&& s.subrange(off, off + cmaf::utf8(t).len()) == cmaf::utf8(t)
        }),
{
    let s = before + cmaf::utf8(t) + seq![0u8] + after;
    let off = before.len() as int;
    let end = off + cmaf::utf8(t).len();
    lemma_no_zero_byte(t);
    assert forall|k: int| off <= k < end implies s[k] != 0 by {
        assert(s[k] == cmaf::utf8(t)[k - off]);
    }
    lemma_nul_at(s, off, end);
    assert(s.subrange(off, end) =~= cmaf::utf8(t));
}

/// Whether an event message can be told apart from what follows its texts, and its time fits
/// into the field that its version has for it.
pub open spec fn emsg_fits(e: EmsgView) -> bool {
    &&& e.version <= 1
    &&& e.version == 0 ==> e.presentation_time <= u32::MAX
    &&& !e.scheme_id_uri.contains('\0')
    &&& !e.value.contains('\0')
}

/// An event message whose texts are read from their bytes.
pub open spec fn emsg_read(e: EmsgView) -> EmsgView {
    EmsgView {
        scheme_id_uri: text::lossy_text(cmaf::utf8(e.scheme_id_uri)),
        value: text::lossy_text(cmaf::utf8(e.value)),
        ..e
    }
}

/// The fixed fields of a version 0 event message and what follows them.
proof fn lemma_early_fields(s: Seq<u8>, before: Seq<u8>, e: EmsgView)
    requires
        s == before + bytes::bytes32(e.timescale) + bytes::bytes32(e.presentation_time as u32)
            + bytes::bytes32(e.event_duration) + bytes::bytes32(e.id) + e.message_data,
    ensures
        before.len() + 16 <= s.len(),
        bytes::be32(s, before.len() as int) == e.timescale,
        bytes::be32(s, (before.len() + 4) as int) == e.presentation_time as u32,
        bytes::be32(s, (before.len() + 8) as int) == e.event_duration,
        bytes::be32(s, (before.len() + 12) as int) == e.id,
        s.skip((before.len() + 16) as int) == e.message_data,
{
    let at = before.len() as int;
    assert(s.subrange(at, at + 4) =~= bytes::bytes32(e.timescale));
    assert(s.subrange(at + 4, at + 8) =~= bytes::bytes32(e.presentation_time as u32));
    assert(s.subrange(at + 8, at + 12) =~= bytes::bytes32(e.event_duration));
    assert(s.subrange(at + 12, at + 16) =~= bytes::bytes32(e.id));
    bytes::lemma_be32_of_bytes32(s, at, e.timescale);
    bytes::lemma_be32_of_bytes32(s, at + 4, e.presentation_time as u32);
    bytes::lemma_be32_of_bytes32(s, at + 8, e.event_duration);
    bytes::lemma_be32_of_bytes32(s, at + 12, e.id);
    assert(s.skip(at + 16) =~= e.message_data);
}

/// The fixed fields of a version 1 event message.
proof fn lemma_late_fields(s: Seq<u8>, e: EmsgView, after: Seq<u8>)
    requires
        s == seq![1u8] + bytes::zeros(3) + bytes::bytes32(e.timescale) + bytes::bytes64(
            e.presentation_time,
        ) + bytes::bytes32(e.event_duration) + bytes::bytes32(e.id) + after,
    ensures
        s[0] == 1,
        24 <= s.len(),
        bytes::be32(s, 4) == e.timescale,
        bytes::be64(s, 8) == e.presentation_time,
        bytes::be32(s, 16) == e.event_duration,
        bytes::be32(s, 20) == e.id,
{
    assert(s.subrange(4, 8) =~= bytes::bytes32(e.timescale));
    assert(s.subrange(8, 16) =~= bytes::bytes64(e.presentation_time));
    assert(s.subrange(16, 20) =~= bytes::bytes32(e.event_duration));
    assert(s.subrange(20, 24) =~= bytes::bytes32(e.id));
    bytes::lemma_be32_of_bytes32(s, 4, e.timescale);
    bytes::lemma_be64_of_bytes64(s, 8, e.presentation_time);
    bytes::lemma_be32_of_bytes32(s, 16, e.event_duration);
    bytes::lemma_be32_of_bytes32(s, 20, e.id);
}

/// Where the two texts of an emsg payload stand.
pub open spec fn texts_in_place(e: EmsgView) -> bool {
    let s = cmaf::emsg_payload(e);
    let start: int = if e.version == 0 {
        4
    } else {
        24
    };
    let uri = cmaf::utf8(e.scheme_id_uri);
    let value = cmaf::utf8(e.value);
    let second = start + uri.len() + 1;
    &&& second + value.len() < s.len()
    &&& s.subrange(start, start + uri.len()) == uri
    &&& s.subrange(second, second + value.len()) == value
    &&& cmaf::nul_string(s, start) == Ok::<(Seq<char>, int), ErrorView>(
        (text::lossy_text(uri), (uri.len() + 1) as int),
    )
    &&& cmaf::nul_string(s, second) == Ok::<(Seq<char>, int), ErrorView>(
        (text::lossy_text(value), (value.len() + 1) as int),
    )
}

/// Two zero-terminated texts are found where they were written.
proof fn lemma_two_texts(s: Seq<u8>, before: Seq<u8>, a: Seq<char>, b: Seq<char>, after: Seq<u8>)
    requires
        !a.contains('\0'),
        !b.contains('\0'),
        s == before + cmaf::utf8(a) + seq![0u8] + cmaf::utf8(b) + seq![0u8] + after,
    ensures
        cmaf::nul_string(s, before.len() as int) == Ok::<(Seq<char>, int), ErrorView>(
            (text::lossy_text(cmaf::utf8(a)), (cmaf::utf8(a).len() + 1) as int),
        ),
        cmaf::nul_string(s, (before.len() + cmaf::utf8(a).len() + 1) as int) == Ok::<
            (Seq<char>, int),
            ErrorView,
        >((text::lossy_text(cmaf::utf8(b)), (cmaf::utf8(b).len() + 1) as int)),
        s.subrange(before.len() as int, (before.len() + cmaf::utf8(a).len()) as int) == cmaf::utf8(
            a,
        ),
        ({
            let second = before.len() + cmaf::utf8(a).len() + 1;
            s.subrange(second as int, (second + cmaf::utf8(b).len()) as int) == cmaf::utf8(b)
        }),
{
    let rest = cmaf::utf8(b) + seq![0u8] + after;
    assert(s =~= before + cmaf::utf8(a) + seq![0u8] + rest);
    lemma_nul_string(before, a, rest);
    let second = before + cmaf::utf8(a) + seq![0u8];
    assert(s =~= second + cmaf::utf8(b) + seq![0u8] + after);
    lemma_nul_string(second, b, after);
}

proof fn lemma_regrouped(
    a: Seq<u8>,
    b: Seq<u8>,
    c: Seq<u8>,
    d: Seq<u8>,
    e: Seq<u8>,
    f: Seq<u8>,
)
    ensures
        a + b + c + d + e + f == a + (b + c + d + e + f),
{
    assert(a + b + c + d + e + f =~= a + (b + c + d + e + f));
}

proof fn lemma_skipped(head: Seq<u8>, a: Seq<u8>, b: Seq<u8>, rest: Seq<u8>)
    ensures
        (head + a + seq![0u8] + b + seq![0u8] + rest).skip(
            head.len() + (a.len() + 1) as int + (b.len() + 1),
        ) == rest,
{
    let s = head + a + seq![0u8] + b + seq![0u8] + rest;
    assert(s.skip(head.len() + (a.len() + 1) as int + (b.len() + 1)) =~= rest);
}

proof fn lemma_early_emsg(e: EmsgView)
    requires
        emsg_fits(e),
        e.version == 0,
    ensures
        cmaf::emsg_of(cmaf::emsg_payload(e)) == Ok::<EmsgView, ErrorView>(emsg_read(e)),
        texts_in_place(e),
{
    let s = cmaf::emsg_payload(e);
    let uri = cmaf::utf8(e.scheme_id_uri);
    let value = cmaf::utf8(e.value);
    let head = seq![0u8] + bytes::zeros(3);
    let texts = head + uri + seq![0u8] + value + seq![0u8];
    let fixed = bytes::bytes32(e.timescale) + bytes::bytes32(e.presentation_time as u32)
        + bytes::bytes32(e.event_duration) + bytes::bytes32(e.id) + e.message_data;
    lemma_early_fields(s, texts, e);
    lemma_regrouped(
        texts,
        bytes::bytes32(e.timescale),
        bytes::bytes32(e.presentation_time as u32),
        bytes::bytes32(e.event_duration),
        bytes::bytes32(e.id),
        e.message_data,
    );
    assert(s == texts + fixed);
    lemma_two_texts(s, head, e.scheme_id_uri, e.value, fixed);
    assert(s[0] == 0);
    assert(texts.len() == 4 + (uri.len() + 1) + (value.len() + 1));
}

#[verifier::spinoff_prover]
#[verifier::rlimit(60)]
proof fn lemma_late_emsg(e: EmsgView)
    requires
        emsg_fits(e),
        e.version == 1,
    ensures
        cmaf::emsg_of(cmaf::emsg_payload(e)) == Ok::<EmsgView, ErrorView>(emsg_read(e)),
        texts_in_place(e),
{
    let s = cmaf::emsg_payload(e);
    let uri = cmaf::utf8(e.scheme_id_uri);
    let value = cmaf::utf8(e.value);
    let head = seq![1u8] + bytes::zeros(3) + bytes::bytes32(e.timescale) + bytes::bytes64(
        e.presentation_time,
    ) + bytes::bytes32(e.event_duration) + bytes::bytes32(e.id);
    let rest = uri + seq![0u8] + value + seq![0u8] + e.message_data;
    lemma_two_texts(s, head, e.scheme_id_uri, e.value, e.message_data);
    lemma_regrouped(head, uri, seq![0u8], value, seq![0u8], e.message_data);
    lemma_late_fields(s, e, rest);
    assert(head.len() == 24);
    lemma_skipped(head, uri, value, e.message_data);
}

/// Parsing an emsg payload gives back what it was built from, its texts as their bytes are
/// read, and finds the bytes of the two texts where they were written.
pub proof fn emsg_round_trip(e: EmsgView)
    requires
        emsg_fits(e),
    ensures
        cmaf::emsg_of(cmaf::emsg_payload(e)) == Ok::<EmsgView, ErrorView>(emsg_read(e)),
        texts_in_place(e),
{
    if e.version == 0 {
        lemma_early_emsg(e);
    } else {
        lemma_late_emsg(e);
    }
}

} // verus!
