//! What an edit of the protection of an init segment leaves as it was.

use crate::bytes;
use crate::drm::SystemView;
use crate::error::ErrorView;
use crate::media::box_type;
use crate::media::cmaf;
use crate::media::cmaf::BoxHeader;
use crate::media::container::ContainerFormat;
use crate::media::found;
use crate::media::init;
use crate::media::init::{SampleEdit, Target};
use crate::media::protection;
use crate::media::round_trip;
use crate::media::TrackType;
use vstd::prelude::*;

verus! {

// Payloads of sample entries.

/// Behind the sinf box no other one starts.
#[verifier::rlimit(60)]
proof fn lemma_none_after(p: Seq<u8>, n: int, pos: int)
    requires
        0 <= n <= pos,
        n <= p.len(),
        found::unmarked(p.skip(n)),
    ensures
        !init::sinf_starts(p, pos, 1),
        !init::sinf_starts(p, pos, 8),
{
    reveal(found::unmarked);
    if pos + 8 <= p.len() && p.subrange(pos + 4, pos + 8) == box_type::SINF@ {
        let code = p.subrange(pos + 4, pos + 8);
        let after = p.skip(n);
        assert(code[0] == p[pos + 4] && code[1] == p[pos + 5] && code[2] == p[pos + 6] && code[3]
            == p[pos + 7]);
        assert(found::marked_at(after, pos + 4 - n));
    }
}

/// What is behind the sinf box is copied.
#[verifier::rlimit(60)]
proof fn lemma_rest_rewritten(p: Seq<u8>, n: int, pos: int, kid: Seq<u8>, t: Target, got: Seq<u8>)
    requires
        0 <= n <= pos <= p.len(),
        found::unmarked(p.skip(n)),
    ensures
        init::entry_rewritten(p, pos, kid, t, got) == Ok::<Seq<u8>, ErrorView>(
            got + p.skip(pos),
        ),
    decreases p.len() - pos,
{
    lemma_none_after(p, n, pos);
    if pos + 8 > p.len() {
        assert(bytes::clamped(p, pos, p.len() as int) =~= p.skip(pos));
    } else {
        lemma_rest_rewritten(p, n, pos + 1, kid, t, got.push(p[pos]));
        assert(got.push(p[pos]) + p.skip(pos + 1) =~= got + p.skip(pos));
    }
}

/// What is behind the sinf box is kept.
#[verifier::rlimit(60)]
proof fn lemma_rest_stripped(
    p: Seq<u8>,
    n: int,
    pos: int,
    format: Option<Seq<u8>>,
    got: Seq<u8>,
)
    requires
        0 <= n <= pos <= p.len(),
        found::unmarked(p.skip(n)),
    ensures
        init::entry_stripped(p, pos, format, got) == (format, got + p.skip(pos)),
    decreases p.len() - pos,
{
    lemma_none_after(p, n, pos);
    if pos + 8 > p.len() {
        assert(bytes::clamped(p, pos, p.len() as int) =~= p.skip(pos));
    } else {
        lemma_rest_stripped(p, n, pos + 1, format, got.push(p[pos]));
        assert(got.push(p[pos]) + p.skip(pos + 1) =~= got + p.skip(pos));
    }
}

/// What is in front of the sinf box is kept.
#[verifier::rlimit(60)]
proof fn lemma_front_stripped(before: Seq<u8>, sinf: Seq<u8>, after: Seq<u8>, pos: int)
    requires
        found::unmarked(before),
        sinf.len() >= 8,
        found::plain_start(sinf),
        sinf[4] == 0x73,
        0 <= pos <= before.len(),
    ensures
        init::entry_stripped(before + sinf + after, pos, None, before.take(pos))
            == init::entry_stripped(before + sinf + after, before.len() as int, None, before),
    decreases before.len() - pos,
{
    let p = before + sinf + after;
    if pos < before.len() {
        found::lemma_none_before(before, sinf, after, pos);
        assert(!init::sinf_starts(p, pos, 8));
        assert(before.take(pos).push(p[pos]) =~= before.take(pos + 1));
        lemma_front_stripped(before, sinf, after, pos + 1);
    } else {
        assert(before.take(pos) =~= before);
    }
}

/// Whether a sinf box with `info` in it protects samples of a format and has a plain size.
spec fn plain_sinf(info: Seq<u8>, format: Seq<u8>) -> bool {
    protection::protects(info, format) && found::plain_size(info.len() + 8)
}

/// A protected payload without its sinf box.
#[verifier::spinoff_prover]
#[verifier::rlimit(60)]
proof fn lemma_payload_stripped(
    before: Seq<u8>,
    info: Seq<u8>,
    after: Seq<u8>,
    format: Seq<u8>,
)
    requires
        found::unmarked(before),
        found::unmarked(after),
        plain_sinf(info, format),
    ensures
        init::entry_stripped(
            before + cmaf::boxed(box_type::SINF@, info) + after,
            0,
            None,
            Seq::empty(),
        ) == (Some(format), before + after),
{
    let sinf = cmaf::boxed(box_type::SINF@, info);
    let p = before + sinf + after;
    let n = before.len() as int;
    let size = (info.len() + 8) as u32;
    assert(sinf.len() == info.len() + 8);
    found::lemma_box_starts(box_type::SINF@, info);
    assert(sinf[4] == box_type::SINF@[0]);
    assert(before.take(0) =~= Seq::empty());
    lemma_front_stripped(before, sinf, after, 0);
    assert(p.subrange(n, n + 4) =~= bytes::bytes32(size));
    bytes::lemma_be32_of_bytes32(p, n, size);
    assert(p.subrange(n + 4, n + 8) =~= box_type::SINF@);
    assert(init::sinf_starts(p, n, 8));
    assert(p.subrange(n + 8, n + size) =~= info);
    protection::lemma_format_named(info, format);
    assert(p.skip(n + size) =~= after);
    lemma_rest_stripped(p, n + size, n + size, Some(format), before);
}

/// A protected payload with its sinf box pointed at another scheme.
#[verifier::spinoff_prover]
#[verifier::rlimit(60)]
proof fn lemma_payload_rewritten(
    before: Seq<u8>,
    info: Seq<u8>,
    after: Seq<u8>,
    format: Seq<u8>,
    kid: Seq<u8>,
    t: Target,
)
    requires
        found::unmarked(before),
        found::unmarked(after),
        plain_sinf(info, format),
    ensures
        init::entry_rewritten(
            before + cmaf::boxed(box_type::SINF@, info) + after,
            0,
            kid,
            t,
            Seq::empty(),
        ) == Ok::<Seq<u8>, ErrorView>(before + init::sinf_box(format, t, kid) + after),
{
    let sinf = cmaf::boxed(box_type::SINF@, info);
    let new = init::sinf_box(format, t, kid);
    let p = before + sinf + after;
    let n = (before.len() + sinf.len()) as int;
    found::lemma_sinf_step(before, info, after, format, kid, t);
    assert(before.take(0) =~= Seq::empty());
    found::lemma_reaches_sinf(before, sinf, after, 0, kid, t);
    assert(p.skip(n) =~= after);
    lemma_rest_rewritten(p, n, n, kid, t, before + new);
}

/// A sinf box that was built has a plain size.
proof fn lemma_built_plain(format: Seq<u8>, t: Target, kid: Seq<u8>) -> (info: Seq<u8>)
    requires
        format.len() == 4,
        kid.len() == 16,
    ensures
        init::sinf_box(format, t, kid) == cmaf::boxed(box_type::SINF@, info),
        plain_sinf(info, format),
{
    protection::lemma_built_protects(format, t, kid);
    let info = choose|info: Seq<u8>|
        init::sinf_box(format, t, kid) == #[trigger] cmaf::boxed(box_type::SINF@, info)
            && info.len() == 71 && protection::protects(info, format);
    assert(bytes::bytes32(79)[0] == 0);
    info
}

// Sample entries.

/// What the edit makes of a sample entry.
#[verifier::opaque]
pub open spec fn entry_of(q: Seq<u8>, edit: SampleEdit, kid: Seq<u8>) -> Result<
    Seq<u8>,
    ErrorView,
> {
    init::edited_entry(q, round_trip::head_of(q), edit, kid)
}

/// A whole box stands for itself.
pub proof fn lemma_stands_alone(q: Seq<u8>)
    requires
        round_trip::whole_box(q),
        q.len() <= u64::MAX,
    ensures
        round_trip::stands_for(q, round_trip::head_of(q), q),
{
    let none = Seq::<u8>::empty();
    round_trip::lemma_header_moves(none, q, none);
    assert(none + q + none =~= q);
    reveal(round_trip::head_of);
}

/// An entry is edited the same wherever it stands.
pub proof fn lemma_entry_of(p: Seq<u8>, h: BoxHeader, q: Seq<u8>, edit: SampleEdit, kid: Seq<u8>)
    requires
        round_trip::whole_box(q),
        q.len() <= u64::MAX,
        round_trip::stands_for(p, h, q),
    ensures
        init::edited_entry(p, h, edit, kid) == entry_of(q, edit, kid),
{
    reveal(entry_of);
    lemma_stands_alone(q);
}

/// Whether rewriting a sample entry changes its sinf box only: one that is protected, with no
/// letters `sinf` but those of its sinf box, or one without them and with an eight-byte header.
pub open spec fn kept_entry(q: Seq<u8>) -> bool {
    &&& round_trip::whole_box(q)
    &&& (round_trip::head_of(q).header_size == 8 && found::unmarked(round_trip::payload_of(q))) || (
    exists|format: Seq<u8>, before: Seq<u8>, info: Seq<u8>, after: Seq<u8>| #[trigger]
        found::entry_protects(q, format, before, info, after) && found::unmarked(after))
}

/// Rewriting a protected sample entry.
#[verifier::spinoff_prover]
#[verifier::rlimit(60)]
proof fn lemma_protected_kept(
    q: Seq<u8>,
    t: Target,
    kid: Seq<u8>,
    other: Seq<u8>,
    format: Seq<u8>,
    before: Seq<u8>,
    info: Seq<u8>,
    after: Seq<u8>,
    e: Seq<u8>,
)
    requires
        round_trip::whole_box(q),
        q.len() <= u64::MAX,
        found::entry_protects(q, format, before, info, after),
        found::unmarked(after),
        kid.len() == 16,
        entry_of(q, SampleEdit::Rewrite(t), kid) == Ok::<Seq<u8>, ErrorView>(e),
        e.len() <= u32::MAX,
    ensures
        round_trip::whole_box(e),
        entry_of(e, SampleEdit::Strip, other) == entry_of(q, SampleEdit::Strip, other),
{
    let code = round_trip::type_of(q);
    let n = before.len() as int;
    let new = init::sinf_box(format, t, kid);
    round_trip::lemma_whole_box(q);
    assert(found::unmarked(before)) by {
        assert((code + before).subrange(4, 4 + n) =~= before);
        found::lemma_part_unmarked(code + before, 4, 4 + n);
    }
    assert(format.len() == 4) by {
        let (b, c) = choose|b: Seq<u8>, c: Seq<u8>| #[trigger]
            protection::protects_by(info, format, b, c);
    }
    lemma_payload_rewritten(before, info, after, format, kid, t);
    lemma_payload_stripped(before, info, after, format);
    let built = lemma_built_plain(format, t, kid);
    lemma_payload_stripped(before, built, after, format);
    let r = before + new + after;
    lemma_stands_alone(q);
    assert(e == cmaf::boxed(code, r)) by {
        reveal(entry_of);
    }
    assert(e.len() == r.len() + 8);
    round_trip::boxed_reads_back(code, r);
    lemma_stands_alone(e);
    reveal(entry_of);
}

/// Rewriting a sample entry leaves what stripping makes of it.
#[verifier::spinoff_prover]
#[verifier::rlimit(60)]
proof fn lemma_entry_kept(q: Seq<u8>, t: Target, kid: Seq<u8>, other: Seq<u8>, e: Seq<u8>)
    requires
        kept_entry(q),
        q.len() <= u64::MAX,
        kid.len() == 16,
        entry_of(q, SampleEdit::Rewrite(t), kid) == Ok::<Seq<u8>, ErrorView>(e),
        e.len() <= u32::MAX,
    ensures
        round_trip::whole_box(e),
        entry_of(e, SampleEdit::Strip, other) == entry_of(q, SampleEdit::Strip, other),
{
    if round_trip::head_of(q).header_size == 8 && found::unmarked(round_trip::payload_of(q)) {
        let p = round_trip::payload_of(q);
        assert(p.skip(0) =~= p);
        lemma_rest_rewritten(p, 0, 0, kid, t, Seq::empty());
        assert(Seq::<u8>::empty() + p.skip(0) =~= p);
        lemma_stands_alone(q);
        round_trip::compact_box_is_rebuilt(q);
        assert(e == q) by {
            reveal(entry_of);
        }
    } else {
        let (format, before, info, after) = choose|
            format: Seq<u8>,
            before: Seq<u8>,
            info: Seq<u8>,
            after: Seq<u8>,
        | #[trigger]
            found::entry_protects(q, format, before, info, after) && found::unmarked(after);
        lemma_protected_kept(q, t, kid, other, format, before, info, after, e);
    }
}

// The sample description.

/// Where entry `k` of a sample description starts.
pub open spec fn entry_start(parts: Seq<Seq<u8>>, k: nat) -> int {
    (8 + cmaf::joined(parts, k).len()) as int
}

/// The entries from `k` on, edited, after `got`.
#[verifier::opaque]
pub open spec fn entries_from(
    p: Seq<u8>,
    parts: Seq<Seq<u8>>,
    k: nat,
    edit: SampleEdit,
    kid: Seq<u8>,
    got: Seq<u8>,
) -> Result<Seq<u8>, ErrorView> {
    init::stsd_entries(p, entry_start(parts, k), (parts.len() - k) as nat, edit, kid, got)
}

/// Whether a sample description has the given entries and no more.
pub open spec fn has_entries(p: Seq<u8>, parts: Seq<Seq<u8>>) -> bool {
    &&& 8 <= p.len() <= u64::MAX
    &&& round_trip::made_of(p.skip(8), parts)
    &&& bytes::be32(p, 4) == parts.len()
}

#[verifier::rlimit(60)]
proof fn lemma_entries_step(
    p: Seq<u8>,
    parts: Seq<Seq<u8>>,
    k: nat,
    edit: SampleEdit,
    kid: Seq<u8>,
    got: Seq<u8>,
)
    requires
        has_entries(p, parts),
        k < parts.len(),
    ensures
        entries_from(p, parts, k, edit, kid, got) == match entry_of(parts[k as int], edit, kid) {
            Ok(b) => entries_from(p, parts, k + 1, edit, kid, got + b),
            Err(e) => Err(e),
        },
{
    reveal(entries_from);
    let head = p.take(8);
    assert(p =~= head + cmaf::joined(parts, parts.len()));
    assert(round_trip::whole_box(parts[k as int]));
    protection::lemma_entry_place(p, head, parts, k);
    round_trip::lemma_part_length(parts, k as int, parts.len());
    let h = cmaf::header_at(p, entry_start(parts, k))->Ok_0;
    lemma_entry_of(p, h, parts[k as int], edit, kid);
    assert(entry_start(parts, k) + h.size == entry_start(parts, k + 1));
}

proof fn lemma_entries_end(
    p: Seq<u8>,
    parts: Seq<Seq<u8>>,
    edit: SampleEdit,
    kid: Seq<u8>,
    got: Seq<u8>,
)
    ensures
        entries_from(p, parts, parts.len(), edit, kid, got) == Ok::<Seq<u8>, ErrorView>(got),
{
    reveal(entries_from);
}

/// What the edit makes of each of some entries.
pub open spec fn made_entries(parts: Seq<Seq<u8>>, edit: SampleEdit, kid: Seq<u8>) -> Seq<Seq<u8>> {
    Seq::new(parts.len(), |k: int| entry_of(parts[k], edit, kid)->Ok_0)
}

/// An edited sample description is made of its edited entries.
pub proof fn lemma_entries_made(
    p: Seq<u8>,
    parts: Seq<Seq<u8>>,
    k: nat,
    edit: SampleEdit,
    kid: Seq<u8>,
    r: Seq<u8>,
)
    requires
        has_entries(p, parts),
        k <= parts.len(),
        entries_from(
            p,
            parts,
            k,
            edit,
            kid,
            cmaf::joined(made_entries(parts, edit, kid), k),
        ) == Ok::<Seq<u8>, ErrorView>(r),
    ensures
        r == cmaf::joined(made_entries(parts, edit, kid), parts.len()),
        forall|i: int| k <= i < parts.len() ==> entry_of(#[trigger] parts[i], edit, kid) is Ok,
    decreases parts.len() - k,
{
    let new = made_entries(parts, edit, kid);
    if k < parts.len() {
        lemma_entries_step(p, parts, k, edit, kid, cmaf::joined(new, k));
        lemma_entries_made(p, parts, k + 1, edit, kid, r);
    } else {
        lemma_entries_end(p, parts, edit, kid, cmaf::joined(new, k));
    }
}

/// Entries of which an edit makes the same are edited to the same.
proof fn lemma_same_entries(
    a: Seq<u8>,
    b: Seq<u8>,
    old: Seq<Seq<u8>>,
    new: Seq<Seq<u8>>,
    k: nat,
    edit: SampleEdit,
    kid: Seq<u8>,
    got: Seq<u8>,
)
    requires
        has_entries(a, old),
        has_entries(b, new),
        old.len() == new.len(),
        k <= old.len(),
        forall|i: int|
            0 <= i < old.len() ==> entry_of(#[trigger] new[i], edit, kid) == entry_of(
                old[i],
                edit,
                kid,
            ),
    ensures
        entries_from(a, old, k, edit, kid, got) == entries_from(b, new, k, edit, kid, got),
    decreases old.len() - k,
{
    if k < old.len() {
        lemma_entries_step(a, old, k, edit, kid, got);
        lemma_entries_step(b, new, k, edit, kid, got);
        assert(entry_of(new[k as int], edit, kid) == entry_of(old[k as int], edit, kid));
        if let Ok(x) = entry_of(old[k as int], edit, kid) {
            lemma_same_entries(a, b, old, new, k + 1, edit, kid, got + x);
        }
    } else {
        lemma_entries_end(a, old, edit, kid, got);
        lemma_entries_end(b, new, edit, kid, got);
    }
}

/// Whether rewriting a sample description changes the sinf boxes of its entries only: it has as
/// many entries as it counts, each of them such a one.
pub open spec fn kept_stsd(p: Seq<u8>) -> bool {
    &&& 8 <= p.len()
    &&& round_trip::whole_boxes(p.skip(8))
    &&& round_trip::boxes_of(p.skip(8)).len() == bytes::be32(p, 4)
    &&& forall|k: int|
        0 <= k < round_trip::boxes_of(p.skip(8)).len() ==> kept_entry(
            #[trigger] round_trip::boxes_of(p.skip(8))[k],
        )
}

/// What the edit makes of a sample description.
#[verifier::opaque]
pub open spec fn stsd_of(p: Seq<u8>, edit: SampleEdit, kid: Seq<u8>) -> Result<Seq<u8>, ErrorView> {
    init::edited_stsd(p, round_trip::head_of(p), edit, kid)
}

/// What the edit makes of a sample description with the given entries.
pub proof fn lemma_stsd_of(p: Seq<u8>, parts: Seq<Seq<u8>>, edit: SampleEdit, kid: Seq<u8>)
    requires
        round_trip::whole_box(p),
        p.len() <= u64::MAX,
        has_entries(round_trip::payload_of(p), parts),
    ensures
        stsd_of(p, edit, kid) == match entries_from(
            round_trip::payload_of(p),
            parts,
            0,
            edit,
            kid,
            Seq::empty(),
        ) {
            Ok(entries) => Ok(
                cmaf::boxed(box_type::STSD@, round_trip::payload_of(p).take(8) + entries),
            ),
            Err(e) => Err(e),
        },
{
    reveal(stsd_of);
    reveal(entries_from);
    lemma_stands_alone(p);
    let body = round_trip::payload_of(p);
    bytes::lemma_bytes32_of_be32(body, 4);
    assert(body.subrange(0, 4) + bytes::bytes32(bytes::be32(body, 4)) =~= body.take(8));
}

/// A box with new entries behind the same count.
pub proof fn lemma_new_entries(body: Seq<u8>, new: Seq<Seq<u8>>, x: Seq<u8>)
    requires
        8 <= body.len(),
        bytes::be32(body, 4) == new.len(),
        forall|k: int| 0 <= k < new.len() ==> round_trip::whole_box(#[trigger] new[k]),
        x == cmaf::boxed(box_type::STSD@, body.take(8) + cmaf::joined(new, new.len())),
        x.len() <= u32::MAX,
    ensures
        round_trip::whole_box(x),
        round_trip::type_of(x) == box_type::STSD@,
        has_entries(round_trip::payload_of(x), new),
        round_trip::payload_of(x).take(8) == body.take(8),
{
    let p = body.take(8) + cmaf::joined(new, new.len());
    assert(x.len() == p.len() + 8);
    round_trip::boxed_reads_back(box_type::STSD@, p);
    assert(p.skip(8) =~= cmaf::joined(new, new.len()));
    assert(p.take(8) =~= body.take(8));
    assert(bytes::be32(p, 4) == bytes::be32(body, 4));
}

/// Rewriting a sample description leaves what stripping makes of it.
#[verifier::spinoff_prover]
#[verifier::rlimit(60)]
proof fn lemma_stsd_kept(p: Seq<u8>, t: Target, kid: Seq<u8>, other: Seq<u8>, x: Seq<u8>)
    requires
        round_trip::whole_box(p),
        p.len() <= u64::MAX,
        kept_stsd(round_trip::payload_of(p)),
        kid.len() == 16,
        stsd_of(p, SampleEdit::Rewrite(t), kid) == Ok::<Seq<u8>, ErrorView>(x),
        x.len() <= u32::MAX,
    ensures
        round_trip::whole_box(x),
        round_trip::type_of(x) == box_type::STSD@,
        stsd_of(x, SampleEdit::Strip, other) == stsd_of(p, SampleEdit::Strip, other),
{
    let edit = SampleEdit::Rewrite(t);
    let body = round_trip::payload_of(p);
    let old = round_trip::boxes_of(body.skip(8));
    let new = made_entries(old, edit, kid);
    round_trip::lemma_whole_box(p);
    assert(has_entries(body, old));
    lemma_stsd_of(p, old, edit, kid);
    let entries = entries_from(body, old, 0, edit, kid, Seq::empty())->Ok_0;
    lemma_entries_made(body, old, 0, edit, kid, entries);
    assert(x.len() == 16 + entries.len());
    assert forall|k: int| 0 <= k < new.len() implies round_trip::whole_box(#[trigger] new[k])
        && entry_of(new[k], SampleEdit::Strip, other) == entry_of(
        old[k],
        SampleEdit::Strip,
        other,
    ) by {
        assert(kept_entry(old[k]));
        round_trip::lemma_part_length(old, k, old.len());
        round_trip::lemma_part_length(new, k, new.len());
        lemma_entry_kept(old[k], t, kid, other, new[k]);
    }
    lemma_new_entries(body, new, x);
    lemma_stsd_of(x, new, SampleEdit::Strip, other);
    lemma_stsd_of(p, old, SampleEdit::Strip, other);
    lemma_same_entries(
        body,
        round_trip::payload_of(x),
        old,
        new,
        0,
        SampleEdit::Strip,
        other,
        Seq::empty(),
    );
}

// Containers.

/// What the edit makes of a box in a container.
#[verifier::opaque]
pub open spec fn part_of(p: Seq<u8>, edit: SampleEdit, kid: Seq<u8>) -> Result<Seq<u8>, ErrorView> {
    let code = round_trip::type_of(p);
    if init::descends(edit, code) {
        match children_of(round_trip::payload_of(p), edit, kid) {
            Ok(c) => Ok(cmaf::boxed(code, c)),
            Err(e) => Err(e),
        }
    } else if code == box_type::STSD@ {
        stsd_of(p, edit, kid)
    } else {
        Ok(p)
    }
}

/// What the edit makes of the children of a container.
pub open spec fn children_of(s: Seq<u8>, edit: SampleEdit, kid: Seq<u8>) -> Result<Seq<u8>, ErrorView> {
    children_from(s, 0, edit, kid, Seq::empty())
}

/// The children from `k` on, edited, after `got`.
#[verifier::opaque]
pub open spec fn children_from(s: Seq<u8>, k: int, edit: SampleEdit, kid: Seq<u8>, got: Seq<u8>) -> Result<
    Seq<u8>,
    ErrorView,
> {
    init::edited_children(s, k, edit, kid, got)
}

/// A run of whole boxes that can be in memory.
pub open spec fn run_of(s: Seq<u8>, parts: Seq<Seq<u8>>) -> bool {
    s.len() <= u64::MAX && round_trip::made_of(s, parts)
}

#[verifier::rlimit(60)]
proof fn lemma_children_step(
    s: Seq<u8>,
    parts: Seq<Seq<u8>>,
    k: int,
    edit: SampleEdit,
    kid: Seq<u8>,
    got: Seq<u8>,
)
    requires
        run_of(s, parts),
        0 <= k < parts.len(),
    ensures
        children_from(s, k, edit, kid, got) == match part_of(parts[k], edit, kid) {
            Ok(b) => children_from(s, k + 1, edit, kid, got + b),
            Err(e) => Err(e),
        },
{
    reveal(children_from);
    reveal(part_of);
    reveal(stsd_of);
    round_trip::run_hands_out_every_box(s, parts);
    round_trip::lemma_part_length(parts, k, parts.len());
    let p = parts[k];
    let h = cmaf::run(s).headers[k];
    assert(round_trip::whole_box(p));
    assert(round_trip::stands_for(s, h, p));
    lemma_stands_alone(p);
}

proof fn lemma_children_end(
    s: Seq<u8>,
    parts: Seq<Seq<u8>>,
    edit: SampleEdit,
    kid: Seq<u8>,
    got: Seq<u8>,
)
    requires
        run_of(s, parts),
    ensures
        children_from(s, parts.len() as int, edit, kid, got) == Ok::<Seq<u8>, ErrorView>(got),
{
    reveal(children_from);
    round_trip::run_hands_out_every_box(s, parts);
}

/// What the edit makes of each of some boxes.
pub open spec fn made_parts(parts: Seq<Seq<u8>>, edit: SampleEdit, kid: Seq<u8>) -> Seq<Seq<u8>> {
    Seq::new(parts.len(), |k: int| part_of(parts[k], edit, kid)->Ok_0)
}

/// An edited container is made of its edited boxes.
pub proof fn lemma_children_made(
    s: Seq<u8>,
    parts: Seq<Seq<u8>>,
    k: nat,
    edit: SampleEdit,
    kid: Seq<u8>,
    r: Seq<u8>,
)
    requires
        run_of(s, parts),
        k <= parts.len(),
        children_from(s, k as int, edit, kid, cmaf::joined(made_parts(parts, edit, kid), k))
            == Ok::<Seq<u8>, ErrorView>(r),
    ensures
        r == cmaf::joined(made_parts(parts, edit, kid), parts.len()),
        forall|i: int| k <= i < parts.len() ==> part_of(#[trigger] parts[i], edit, kid) is Ok,
    decreases parts.len() - k,
{
    let new = made_parts(parts, edit, kid);
    if k < parts.len() {
        lemma_children_step(s, parts, k as int, edit, kid, cmaf::joined(new, k));
        lemma_children_made(s, parts, k + 1, edit, kid, r);
    } else {
        lemma_children_end(s, parts, edit, kid, cmaf::joined(new, k));
    }
}

/// Boxes of which an edit makes the same are edited to the same.
proof fn lemma_same_children(
    a: Seq<u8>,
    b: Seq<u8>,
    old: Seq<Seq<u8>>,
    new: Seq<Seq<u8>>,
    k: int,
    edit: SampleEdit,
    kid: Seq<u8>,
    got: Seq<u8>,
)
    requires
        run_of(a, old),
        run_of(b, new),
        old.len() == new.len(),
        0 <= k <= old.len(),
        forall|i: int|
            0 <= i < old.len() ==> part_of(#[trigger] new[i], edit, kid) == part_of(
                old[i],
                edit,
                kid,
            ),
    ensures
        children_from(a, k, edit, kid, got) == children_from(b, k, edit, kid, got),
    decreases old.len() - k,
{
    if k < old.len() {
        lemma_children_step(a, old, k, edit, kid, got);
        lemma_children_step(b, new, k, edit, kid, got);
        assert(part_of(new[k], edit, kid) == part_of(old[k], edit, kid));
        if let Ok(x) = part_of(old[k], edit, kid) {
            lemma_same_children(a, b, old, new, k + 1, edit, kid, got + x);
        }
    } else {
        lemma_children_end(a, old, edit, kid, got);
        lemma_children_end(b, new, edit, kid, got);
    }
}

/// Whether rewriting a container changes the sinf boxes below it only: a run of whole boxes, and
/// so are those in it that hold boxes, and the sample descriptions are such ones.
pub open spec fn kept_inside(s: Seq<u8>) -> bool
    decreases s.len(),
{
    &&& round_trip::whole_boxes(s)
    &&& forall|k: int| #![trigger round_trip::boxes_of(s)[k]]
        0 <= k < round_trip::boxes_of(s).len() ==> {
            let p = round_trip::boxes_of(s)[k];
            let body = round_trip::payload_of(p);
            &&& protection::holds_boxes(round_trip::type_of(p)) ==> body.len() < s.len()
                && kept_inside(body)
            &&& round_trip::type_of(p) == box_type::STSD@ ==> kept_stsd(body)
        }
}

/// Whether rewriting a box changes the sinf boxes below it only.
#[verifier::opaque]
spec fn kept_part(p: Seq<u8>) -> bool {
    &&& round_trip::whole_box(p)
    &&& p.len() <= u64::MAX
    &&& protection::holds_boxes(round_trip::type_of(p)) ==> kept_inside(round_trip::payload_of(p))
    &&& round_trip::type_of(p) == box_type::STSD@ ==> kept_stsd(round_trip::payload_of(p))
}

#[verifier::spinoff_prover]
#[verifier::rlimit(60)]
proof fn lemma_kept_parts(s: Seq<u8>)
    requires
        kept_inside(s),
        s.len() <= u64::MAX,
    ensures
        run_of(s, round_trip::boxes_of(s)),
        forall|k: int|
            0 <= k < round_trip::boxes_of(s).len() ==> kept_part(
                #[trigger] round_trip::boxes_of(s)[k],
            ),
        forall|k: int|
            0 <= k < round_trip::boxes_of(s).len() ==> round_trip::payload_of(
                #[trigger] round_trip::boxes_of(s)[k],
            ).len() < s.len(),
{
    let parts = round_trip::boxes_of(s);
    assert(round_trip::made_of(s, parts));
    assert forall|k: int| 0 <= k < parts.len() implies kept_part(#[trigger] parts[k])
        && round_trip::payload_of(parts[k]).len() < s.len() by {
        reveal(kept_part);
        assert(round_trip::whole_box(parts[k]));
        assert(round_trip::boxes_of(s)[k] == parts[k]);
        round_trip::lemma_whole_box(parts[k]);
        round_trip::lemma_part_length(parts, k, parts.len());
    }
}

/// Rewriting a box leaves what stripping makes of it.
#[verifier::spinoff_prover]
#[verifier::rlimit(60)]
proof fn lemma_part_kept(p: Seq<u8>, t: Target, kid: Seq<u8>, other: Seq<u8>, x: Seq<u8>)
    requires
        kept_part(p),
        kid.len() == 16,
        part_of(p, SampleEdit::Rewrite(t), kid) == Ok::<Seq<u8>, ErrorView>(x),
        x == p || x.len() <= u32::MAX,
    ensures
        round_trip::whole_box(x),
        round_trip::type_of(x) == round_trip::type_of(p),
        part_of(x, SampleEdit::Strip, other) == part_of(p, SampleEdit::Strip, other),
    decreases p.len(), 0nat,
{
    let code = round_trip::type_of(p);
    let edit = SampleEdit::Rewrite(t);
    assert(round_trip::whole_box(p)) by {
        reveal(kept_part);
    }
    round_trip::lemma_whole_box(p);
    if x != p {
        if init::descends(edit, code) {
            let body = round_trip::payload_of(p);
            assert(kept_inside(body) && body.len() <= u64::MAX) by {
                reveal(kept_part);
            }
            let c = children_of(body, edit, kid)->Ok_0;
            assert(children_of(body, edit, kid) is Ok && x == cmaf::boxed(code, c)) by {
                reveal(part_of);
            }
            assert(x.len() == c.len() + 8);
            round_trip::boxed_reads_back(code, c);
            lemma_inside_kept(body, t, kid, other, c);
            assert(init::descends(SampleEdit::Strip, code));
            reveal(part_of);
        } else {
            assert(code == box_type::STSD@ && stsd_of(p, edit, kid) == Ok::<Seq<u8>, ErrorView>(
                x,
            )) by {
                reveal(part_of);
            }
            assert(kept_stsd(round_trip::payload_of(p)) && p.len() <= u64::MAX) by {
                reveal(kept_part);
            }
            lemma_stsd_kept(p, t, kid, other, x);
            lemma_not_inside();
            reveal(part_of);
        }
    }
}

/// A sample description is not a container.
pub proof fn lemma_not_inside()
    ensures
        !init::descends(SampleEdit::Strip, box_type::STSD@),
{
    assert(box_type::STSD@[0] != box_type::MDIA@[0]);
    assert(box_type::STSD@[0] != box_type::MINF@[0]);
    assert(box_type::STSD@[2] != box_type::STBL@[2]);
}

/// Rewriting what is in a container leaves what stripping makes of it.
#[verifier::spinoff_prover]
#[verifier::rlimit(60)]
proof fn lemma_inside_kept(s: Seq<u8>, t: Target, kid: Seq<u8>, other: Seq<u8>, r: Seq<u8>)
    requires
        kept_inside(s),
        s.len() <= u64::MAX,
        kid.len() == 16,
        children_of(s, SampleEdit::Rewrite(t), kid) == Ok::<Seq<u8>, ErrorView>(r),
        r.len() <= u32::MAX,
    ensures
        children_of(r, SampleEdit::Strip, other) == children_of(s, SampleEdit::Strip, other),
    decreases s.len(), 1nat,
{
    let edit = SampleEdit::Rewrite(t);
    let old = round_trip::boxes_of(s);
    let new = made_parts(old, edit, kid);
    lemma_kept_parts(s);
    lemma_children_made(s, old, 0, edit, kid, r);
    assert forall|k: int| 0 <= k < new.len() implies round_trip::whole_box(#[trigger] new[k])
        && part_of(new[k], SampleEdit::Strip, other) == part_of(
        old[k],
        SampleEdit::Strip,
        other,
    ) by {
        assert(kept_part(old[k]));
        assert(part_of(old[k], edit, kid) is Ok);
        round_trip::lemma_part_length(old, k, old.len());
        round_trip::lemma_part_length(new, k, new.len());
        lemma_part_kept(old[k], t, kid, other, new[k]);
    }
    assert(run_of(r, new));
    lemma_same_children(s, r, old, new, 0, SampleEdit::Strip, other, Seq::empty());
}

// Tracks.

/// Whether rewriting a track changes the sinf boxes below it only: a run of whole boxes, whose
/// media boxes are such ones.
pub open spec fn kept_trak(s: Seq<u8>) -> bool {
    &&& round_trip::whole_boxes(s)
    &&& forall|k: int| #![trigger round_trip::boxes_of(s)[k]]
        0 <= k < round_trip::boxes_of(s).len() && round_trip::type_of(round_trip::boxes_of(s)[k])
            == box_type::MDIA@ ==> kept_inside(
            round_trip::payload_of(round_trip::boxes_of(s)[k]),
        )
}

/// What rewriting makes of a box in a track.
#[verifier::opaque]
pub open spec fn trak_part(p: Seq<u8>, t: Target, kid: Seq<u8>) -> Result<Seq<u8>, ErrorView> {
    if round_trip::type_of(p) == box_type::MDIA@ {
        match children_of(round_trip::payload_of(p), SampleEdit::Rewrite(t), kid) {
            Ok(c) => Ok(cmaf::boxed(box_type::MDIA@, c)),
            Err(e) => Err(e),
        }
    } else {
        Ok(p)
    }
}

/// The boxes of a track from `k` on, rewritten, after `got`.
#[verifier::opaque]
pub open spec fn trak_from(s: Seq<u8>, k: int, t: Target, kid: Seq<u8>, got: Seq<u8>) -> Result<
    Seq<u8>,
    ErrorView,
> {
    init::rewritten_trak(s, k, t, kid, got)
}

#[verifier::rlimit(60)]
proof fn lemma_trak_step(
    s: Seq<u8>,
    parts: Seq<Seq<u8>>,
    k: int,
    t: Target,
    kid: Seq<u8>,
    got: Seq<u8>,
)
    requires
        run_of(s, parts),
        0 <= k <= parts.len(),
    ensures
        trak_from(s, k, t, kid, got) == if k < parts.len() {
            match trak_part(parts[k], t, kid) {
                Ok(b) => trak_from(s, k + 1, t, kid, got + b),
                Err(e) => Err(e),
            }
        } else {
            Ok(got)
        },
{
    reveal(trak_from);
    reveal(trak_part);
    reveal(children_from);
    round_trip::run_hands_out_every_box(s, parts);
    if k < parts.len() {
        assert(round_trip::stands_for(s, cmaf::run(s).headers[k], parts[k]));
    }
}

/// What rewriting makes of each of the boxes of a track.
pub open spec fn made_trak(parts: Seq<Seq<u8>>, t: Target, kid: Seq<u8>) -> Seq<Seq<u8>> {
    Seq::new(parts.len(), |k: int| trak_part(parts[k], t, kid)->Ok_0)
}

/// A rewritten track is made of its rewritten boxes.
pub proof fn lemma_trak_made(
    s: Seq<u8>,
    parts: Seq<Seq<u8>>,
    k: nat,
    t: Target,
    kid: Seq<u8>,
    r: Seq<u8>,
)
    requires
        run_of(s, parts),
        k <= parts.len(),
        trak_from(s, k as int, t, kid, cmaf::joined(made_trak(parts, t, kid), k)) == Ok::<
            Seq<u8>,
            ErrorView,
        >(r),
    ensures
        r == cmaf::joined(made_trak(parts, t, kid), parts.len()),
        forall|i: int| k <= i < parts.len() ==> trak_part(#[trigger] parts[i], t, kid) is Ok,
    decreases parts.len() - k,
{
    let new = made_trak(parts, t, kid);
    lemma_trak_step(s, parts, k as int, t, kid, cmaf::joined(new, k));
    if k < parts.len() {
        lemma_trak_made(s, parts, k + 1, t, kid, r);
    }
}

/// Rewriting a box of a track leaves what stripping makes of it.
#[verifier::spinoff_prover]
#[verifier::rlimit(60)]
proof fn lemma_trak_part_kept(p: Seq<u8>, t: Target, kid: Seq<u8>, other: Seq<u8>, x: Seq<u8>)
    requires
        round_trip::whole_box(p),
        p.len() <= u64::MAX,
        round_trip::type_of(p) == box_type::MDIA@ ==> kept_inside(round_trip::payload_of(p)),
        kid.len() == 16,
        trak_part(p, t, kid) == Ok::<Seq<u8>, ErrorView>(x),
        round_trip::type_of(p) == box_type::MDIA@ ==> x.len() <= u32::MAX,
    ensures
        round_trip::whole_box(x),
        part_of(x, SampleEdit::Strip, other) == part_of(p, SampleEdit::Strip, other),
{
    let edit = SampleEdit::Rewrite(t);
    round_trip::lemma_whole_box(p);
    if round_trip::type_of(p) == box_type::MDIA@ {
        let body = round_trip::payload_of(p);
        let c = children_of(body, edit, kid)->Ok_0;
        assert(children_of(body, edit, kid) is Ok && x == cmaf::boxed(box_type::MDIA@, c)) by {
            reveal(trak_part);
        }
        assert(x.len() == c.len() + 8);
        round_trip::boxed_reads_back(box_type::MDIA@, c);
        lemma_inside_kept(body, t, kid, other, c);
        assert(init::descends(SampleEdit::Strip, box_type::MDIA@));
        reveal(part_of);
    } else {
        assert(x == p) by {
            reveal(trak_part);
        }
    }
}

/// What the edit makes of a track.
#[verifier::opaque]
pub open spec fn trak_of(s: Seq<u8>, edit: SampleEdit, mapping: Seq<(TrackType, Seq<u8>)>) -> Result<
    Seq<u8>,
    ErrorView,
> {
    init::edited_trak(s, edit, mapping)
}

/// What rewriting and stripping make of a track.
#[verifier::rlimit(60)]
pub proof fn lemma_trak_of(s: Seq<u8>, t: Target, mapping: Seq<(TrackType, Seq<u8>)>)
    ensures
        trak_of(s, SampleEdit::Rewrite(t), mapping) == match trak_from(
            s,
            0,
            t,
            init::track_kid(s, mapping),
            Seq::empty(),
        ) {
            Ok(c) => Ok(cmaf::boxed(box_type::TRAK@, c)),
            Err(e) => Err(e),
        },
        trak_of(s, SampleEdit::Strip, mapping) == match children_of(
            s,
            SampleEdit::Strip,
            bytes::zeros(16),
        ) {
            Ok(c) => Ok(cmaf::boxed(box_type::TRAK@, c)),
            Err(e) => Err(e),
        },
{
    reveal(trak_of);
    reveal(trak_from);
    reveal(children_from);
}

/// Rewriting a track leaves what stripping makes of it.
#[verifier::spinoff_prover]
#[verifier::rlimit(60)]
proof fn lemma_trak_kept(
    s: Seq<u8>,
    t: Target,
    mapping: Seq<(TrackType, Seq<u8>)>,
    other: Seq<(TrackType, Seq<u8>)>,
    x: Seq<u8>,
)
    requires
        kept_trak(s),
        s.len() <= u64::MAX,
        protection::full_keys(mapping),
        trak_of(s, SampleEdit::Rewrite(t), mapping) == Ok::<Seq<u8>, ErrorView>(x),
        x.len() <= u32::MAX,
    ensures
        round_trip::whole_box(x),
        round_trip::type_of(x) == box_type::TRAK@,
        trak_of(round_trip::payload_of(x), SampleEdit::Strip, other) == trak_of(
            s,
            SampleEdit::Strip,
            other,
        ),
{
    let kid = init::track_kid(s, mapping);
    let none = bytes::zeros(16);
    let old = round_trip::boxes_of(s);
    let new = made_trak(old, t, kid);
    protection::lemma_track_kid(s, mapping);
    assert(round_trip::made_of(s, old));
    lemma_trak_of(s, t, mapping);
    let r = trak_from(s, 0, t, kid, Seq::empty())->Ok_0;
    lemma_trak_made(s, old, 0, t, kid, r);
    assert(x.len() == r.len() + 8);
    round_trip::boxed_reads_back(box_type::TRAK@, r);
    assert forall|k: int| 0 <= k < new.len() implies round_trip::whole_box(#[trigger] new[k])
        && part_of(new[k], SampleEdit::Strip, none) == part_of(
        old[k],
        SampleEdit::Strip,
        none,
    ) by {
        assert(round_trip::boxes_of(s)[k] == old[k]);
        assert(round_trip::whole_box(old[k]));
        assert(trak_part(old[k], t, kid) is Ok);
        round_trip::lemma_part_length(old, k, old.len());
        round_trip::lemma_part_length(new, k, new.len());
        lemma_trak_part_kept(old[k], t, kid, none, new[k]);
    }
    assert(run_of(r, new));
    lemma_same_children(s, r, old, new, 0, SampleEdit::Strip, none, Seq::empty());
    lemma_trak_of(s, t, other);
    lemma_trak_of(r, t, other);
}

// The movie box.

/// Whether rewriting a movie box changes protection only: a run of whole boxes, whose tracks are
/// such ones.
pub open spec fn kept_moov(s: Seq<u8>) -> bool {
    &&& round_trip::whole_boxes(s)
    &&& forall|k: int| #![trigger round_trip::boxes_of(s)[k]]
        0 <= k < round_trip::boxes_of(s).len() && round_trip::type_of(round_trip::boxes_of(s)[k])
            == box_type::TRAK@ ==> kept_trak(round_trip::payload_of(round_trip::boxes_of(s)[k]))
}

/// The boxes of a movie box from `k` on, edited, after `got`.
#[verifier::opaque]
pub open spec fn moov_from(
    s: Seq<u8>,
    k: int,
    edit: SampleEdit,
    mapping: Seq<(TrackType, Seq<u8>)>,
    pssh: Seq<u8>,
    wrote: bool,
    got: Seq<u8>,
) -> Result<Seq<u8>, ErrorView> {
    init::moov_children(s, k, edit, mapping, pssh, wrote, got)
}

/// One box of a movie box is stripped.
#[verifier::rlimit(60)]
proof fn lemma_strip_step(s: Seq<u8>, parts: Seq<Seq<u8>>, k: int, got: Seq<u8>)
    requires
        run_of(s, parts),
        0 <= k <= parts.len(),
    ensures
        ({
            let none = Seq::<(TrackType, Seq<u8>)>::empty();
            let edit = SampleEdit::Strip;
            moov_from(s, k, edit, none, Seq::empty(), false, got) == if k == parts.len() {
                Ok(got)
            } else if round_trip::type_of(parts[k]) == box_type::TRAK@ {
                match trak_of(round_trip::payload_of(parts[k]), edit, none) {
                    Ok(b) => moov_from(s, k + 1, edit, none, Seq::empty(), false, got + b),
                    Err(e) => Err(e),
                }
            } else if round_trip::type_of(parts[k]) == box_type::PSSH@ {
                moov_from(s, k + 1, edit, none, Seq::empty(), false, got)
            } else {
                moov_from(s, k + 1, edit, none, Seq::empty(), false, got + parts[k])
            }
        }),
{
    reveal(moov_from);
    reveal(trak_of);
    round_trip::run_hands_out_every_box(s, parts);
    if k < parts.len() {
        assert(round_trip::stands_for(s, cmaf::run(s).headers[k], parts[k]));
    }
}

/// One box of a movie box is rewritten.
#[verifier::rlimit(60)]
proof fn lemma_rewrite_step(
    s: Seq<u8>,
    parts: Seq<Seq<u8>>,
    k: int,
    t: Target,
    mapping: Seq<(TrackType, Seq<u8>)>,
    pssh: Seq<u8>,
    wrote: bool,
    got: Seq<u8>,
)
    requires
        run_of(s, parts),
        0 <= k <= parts.len(),
    ensures
        ({
            let edit = SampleEdit::Rewrite(t);
            moov_from(s, k, edit, mapping, pssh, wrote, got) == if k == parts.len() {
                Ok(
                    if wrote {
                        got
                    } else {
                        got + pssh
                    },
                )
            } else if round_trip::type_of(parts[k]) == box_type::TRAK@ {
                match trak_of(round_trip::payload_of(parts[k]), edit, mapping) {
                    Ok(b) => moov_from(s, k + 1, edit, mapping, pssh, wrote, got + b),
                    Err(e) => Err(e),
                }
            } else if round_trip::type_of(parts[k]) == box_type::PSSH@ {
                moov_from(
                    s,
                    k + 1,
                    edit,
                    mapping,
                    pssh,
                    true,
                    if wrote {
                        got
                    } else {
                        got + pssh
                    },
                )
            } else {
                moov_from(s, k + 1, edit, mapping, pssh, wrote, got + parts[k])
            }
        }),
{
    reveal(moov_from);
    reveal(trak_of);
    round_trip::run_hands_out_every_box(s, parts);
    if k < parts.len() {
        assert(round_trip::stands_for(s, cmaf::run(s).headers[k], parts[k]));
    }
}

/// The boxes that rewriting makes of those of a movie box from `k` on. The new headers take the
/// place of the first old one, or stand at the end.
pub open spec fn moov_list(
    parts: Seq<Seq<u8>>,
    k: int,
    t: Target,
    mapping: Seq<(TrackType, Seq<u8>)>,
    headers: Seq<Seq<u8>>,
    wrote: bool,
) -> Seq<Seq<u8>>
    decreases parts.len() - k,
{
    let due = if wrote {
        Seq::empty()
    } else {
        headers
    };
    if k < 0 || k >= parts.len() {
        due
    } else if round_trip::type_of(parts[k]) == box_type::TRAK@ {
        seq![trak_of(
            round_trip::payload_of(parts[k]),
            SampleEdit::Rewrite(t),
            mapping,
        )->Ok_0] + moov_list(parts, k + 1, t, mapping, headers, wrote)
    } else if round_trip::type_of(parts[k]) == box_type::PSSH@ {
        due + moov_list(parts, k + 1, t, mapping, headers, true)
    } else {
        seq![parts[k]] + moov_list(parts, k + 1, t, mapping, headers, wrote)
    }
}

/// Joining two lists of boxes.
pub proof fn lemma_joined_both(a: Seq<Seq<u8>>, b: Seq<Seq<u8>>)
    ensures
        cmaf::joined(a + b, (a + b).len()) == cmaf::joined(a, a.len()) + cmaf::joined(b, b.len()),
    decreases b.len(),
{
    if b.len() == 0 {
        assert(a + b =~= a);
        assert(cmaf::joined(a, a.len()) + Seq::<u8>::empty() =~= cmaf::joined(a, a.len()));
    } else {
        let c = b.drop_last();
        lemma_joined_both(a, c);
        assert((a + b).drop_last() =~= a + c);
        round_trip::lemma_joined_same(a + b, a + c, (a + c).len());
        round_trip::lemma_joined_same(b, c, c.len());
        assert(cmaf::joined(a + b, (a + b).len()) =~= cmaf::joined(a, a.len()) + (cmaf::joined(
            c,
            c.len(),
        ) + b.last()));
    }
}

pub proof fn lemma_joined_one(p: Seq<u8>)
    ensures
        cmaf::joined(seq![p], 1) == p,
{
    assert(cmaf::joined(seq![p], 0) == Seq::<u8>::empty());
    assert(Seq::<u8>::empty() + p =~= p);
}

/// Whether the tracks from `k` on can be rewritten.
pub open spec fn tracks_made(
    parts: Seq<Seq<u8>>,
    k: int,
    t: Target,
    mapping: Seq<(TrackType, Seq<u8>)>,
) -> bool {
    forall|i: int|
        k <= i < parts.len() && round_trip::type_of(#[trigger] parts[i]) == box_type::TRAK@
            ==> trak_of(round_trip::payload_of(parts[i]), SampleEdit::Rewrite(t), mapping) is Ok
}

/// A rewritten movie box is made of its rewritten boxes.
#[verifier::spinoff_prover]
#[verifier::rlimit(60)]
pub proof fn lemma_moov_made(
    s: Seq<u8>,
    parts: Seq<Seq<u8>>,
    k: int,
    t: Target,
    mapping: Seq<(TrackType, Seq<u8>)>,
    headers: Seq<Seq<u8>>,
    wrote: bool,
    got: Seq<u8>,
    r: Seq<u8>,
)
    requires
        run_of(s, parts),
        0 <= k <= parts.len(),
        moov_from(
            s,
            k,
            SampleEdit::Rewrite(t),
            mapping,
            cmaf::joined(headers, headers.len()),
            wrote,
            got,
        ) == Ok::<Seq<u8>, ErrorView>(r),
    ensures
        ({
            let list = moov_list(parts, k, t, mapping, headers, wrote);
            &&& r == got + cmaf::joined(list, list.len())
            &&& tracks_made(parts, k, t, mapping)
        }),
    decreases parts.len() - k,
{
    let edit = SampleEdit::Rewrite(t);
    let pssh = cmaf::joined(headers, headers.len());
    let none = Seq::<Seq<u8>>::empty();
    lemma_rewrite_step(s, parts, k, t, mapping, pssh, wrote, got);
    assert(cmaf::joined(none, 0) == Seq::<u8>::empty());
    if k == parts.len() {
        assert(got + Seq::<u8>::empty() =~= got);
    } else if round_trip::type_of(parts[k]) == box_type::TRAK@ {
        let b = trak_of(round_trip::payload_of(parts[k]), edit, mapping)->Ok_0;
        let rest = moov_list(parts, k + 1, t, mapping, headers, wrote);
        lemma_moov_made(s, parts, k + 1, t, mapping, headers, wrote, got + b, r);
        lemma_joined_both(seq![b], rest);
        lemma_joined_one(b);
        assert(got + b + cmaf::joined(rest, rest.len()) =~= got + (b + cmaf::joined(
            rest,
            rest.len(),
        )));
    } else if round_trip::type_of(parts[k]) == box_type::PSSH@ {
        let rest = moov_list(parts, k + 1, t, mapping, headers, true);
        if wrote {
            lemma_moov_made(s, parts, k + 1, t, mapping, headers, true, got, r);
            assert(none + rest =~= rest);
        } else {
            lemma_moov_made(s, parts, k + 1, t, mapping, headers, true, got + pssh, r);
            lemma_joined_both(headers, rest);
            assert(got + pssh + cmaf::joined(rest, rest.len()) =~= got + (pssh + cmaf::joined(
                rest,
                rest.len(),
            )));
        }
    } else {
        let b = parts[k];
        let rest = moov_list(parts, k + 1, t, mapping, headers, wrote);
        lemma_moov_made(s, parts, k + 1, t, mapping, headers, wrote, got + b, r);
        lemma_joined_both(seq![b], rest);
        lemma_joined_one(b);
        assert(got + b + cmaf::joined(rest, rest.len()) =~= got + (b + cmaf::joined(
            rest,
            rest.len(),
        )));
    }
}

/// Whether some boxes are whole protection headers.
pub open spec fn only_headers(headers: Seq<Seq<u8>>) -> bool {
    forall|k: int|
        0 <= k < headers.len() ==> round_trip::whole_box(#[trigger] headers[k])
            && round_trip::type_of(headers[k]) == box_type::PSSH@
}

/// Whether no box is a protection header.
pub open spec fn no_header(parts: Seq<Seq<u8>>) -> bool {
    forall|k: int|
        0 <= k < parts.len() ==> round_trip::type_of(#[trigger] parts[k]) != box_type::PSSH@
}

/// Whether each track from `k` on is made into a whole box of which stripping makes the same.
pub open spec fn tracks_kept(
    parts: Seq<Seq<u8>>,
    k: int,
    t: Target,
    mapping: Seq<(TrackType, Seq<u8>)>,
) -> bool {
    forall|i: int|
        k <= i < parts.len() && round_trip::type_of(#[trigger] parts[i]) == box_type::TRAK@
            ==> track_kept(round_trip::payload_of(parts[i]), t, mapping)
}

#[verifier::opaque]
pub open spec fn track_kept(s: Seq<u8>, t: Target, mapping: Seq<(TrackType, Seq<u8>)>) -> bool {
    let none = Seq::<(TrackType, Seq<u8>)>::empty();
    let x = trak_of(s, SampleEdit::Rewrite(t), mapping)->Ok_0;
    &&& round_trip::whole_box(x)
    &&& round_trip::type_of(x) == box_type::TRAK@
    &&& trak_of(round_trip::payload_of(x), SampleEdit::Strip, none) == trak_of(
        s,
        SampleEdit::Strip,
        none,
    )
}

/// The boxes of a rewritten movie box are whole.
#[verifier::rlimit(60)]
pub proof fn lemma_list_whole(
    parts: Seq<Seq<u8>>,
    k: int,
    t: Target,
    mapping: Seq<(TrackType, Seq<u8>)>,
    headers: Seq<Seq<u8>>,
    wrote: bool,
)
    requires
        0 <= k <= parts.len(),
        all_whole(parts),
        only_headers(headers),
        tracks_kept(parts, k, t, mapping),
    ensures
        all_whole(moov_list(parts, k, t, mapping, headers, wrote)),
    decreases parts.len() - k,
{
    let due = if wrote {
        Seq::empty()
    } else {
        headers
    };
    assert(all_whole(due));
    if k < parts.len() {
        assert(round_trip::whole_box(parts[k]));
        if round_trip::type_of(parts[k]) == box_type::TRAK@ {
            let x = trak_of(
                round_trip::payload_of(parts[k]),
                SampleEdit::Rewrite(t),
                mapping,
            )->Ok_0;
            assert(track_kept(round_trip::payload_of(parts[k]), t, mapping));
            reveal(track_kept);
            lemma_list_whole(parts, k + 1, t, mapping, headers, wrote);
            lemma_all_whole(seq![x], moov_list(parts, k + 1, t, mapping, headers, wrote));
        } else if round_trip::type_of(parts[k]) == box_type::PSSH@ {
            lemma_list_whole(parts, k + 1, t, mapping, headers, true);
            lemma_all_whole(due, moov_list(parts, k + 1, t, mapping, headers, true));
        } else {
            lemma_list_whole(parts, k + 1, t, mapping, headers, wrote);
            lemma_all_whole(seq![parts[k]], moov_list(parts, k + 1, t, mapping, headers, wrote));
        }
    }
}

/// Whether all boxes are whole.
pub open spec fn all_whole(parts: Seq<Seq<u8>>) -> bool {
    forall|i: int| 0 <= i < parts.len() ==> round_trip::whole_box(#[trigger] parts[i])
}

pub proof fn lemma_all_whole(a: Seq<Seq<u8>>, b: Seq<Seq<u8>>)
    requires
        all_whole(a),
        all_whole(b),
    ensures
        all_whole(a + b),
{
    assert forall|i: int| 0 <= i < (a + b).len() implies round_trip::whole_box(
        #[trigger] (a + b)[i],
    ) by {
        if i < a.len() {
            assert((a + b)[i] == a[i]);
        } else {
            assert((a + b)[i] == b[i - a.len()]);
        }
    }
}

/// The new headers stand among the boxes of a rewritten movie box, and no others do.
#[verifier::rlimit(60)]
proof fn lemma_list_headers(
    parts: Seq<Seq<u8>>,
    k: int,
    t: Target,
    mapping: Seq<(TrackType, Seq<u8>)>,
    headers: Seq<Seq<u8>>,
    wrote: bool,
) -> (around: (Seq<Seq<u8>>, Seq<Seq<u8>>))
    requires
        0 <= k <= parts.len(),
        tracks_kept(parts, k, t, mapping),
    ensures
        no_header(around.0),
        no_header(around.1),
        moov_list(parts, k, t, mapping, headers, wrote) == around.0 + (if wrote {
            Seq::empty()
        } else {
            headers
        }) + around.1,
    decreases parts.len() - k,
{
    let due = if wrote {
        Seq::empty()
    } else {
        headers
    };
    let none = Seq::<Seq<u8>>::empty();
    if k == parts.len() {
        assert(none + due + none =~= due);
        (none, none)
    } else if round_trip::type_of(parts[k]) == box_type::PSSH@ && round_trip::type_of(parts[k])
        != box_type::TRAK@ {
        let (a, b) = lemma_list_headers(parts, k + 1, t, mapping, headers, true);
        assert(none + due + (a + b) =~= due + (a + none + b));
        (none, a + b)
    } else {
        let (a, b) = lemma_list_headers(parts, k + 1, t, mapping, headers, wrote);
        let x = if round_trip::type_of(parts[k]) == box_type::TRAK@ {
            trak_of(
                round_trip::payload_of(parts[k]),
                SampleEdit::Rewrite(t),
                mapping,
            )->Ok_0
        } else {
            parts[k]
        };
        if round_trip::type_of(parts[k]) == box_type::TRAK@ {
            assert(track_kept(round_trip::payload_of(parts[k]), t, mapping));
            reveal(track_kept);
            assert(box_type::TRAK@[0] != box_type::PSSH@[0]);
        }
        assert(seq![x] + a + due + b =~= seq![x] + (a + due + b));
        (seq![x] + a, b)
    }
}

/// Stripping passes over headers.
proof fn lemma_headers_go(
    r: Seq<u8>,
    before: Seq<Seq<u8>>,
    headers: Seq<Seq<u8>>,
    after: Seq<Seq<u8>>,
    k: nat,
    got: Seq<u8>,
)
    requires
        run_of(r, before + headers + after),
        only_headers(headers),
        k <= headers.len(),
    ensures
        ({
            let none = Seq::<(TrackType, Seq<u8>)>::empty();
            let edit = SampleEdit::Strip;
            moov_from(r, (before.len() + k) as int, edit, none, Seq::empty(), false, got)
                == moov_from(
                r,
                (before.len() + headers.len()) as int,
                edit,
                none,
                Seq::empty(),
                false,
                got,
            )
        }),
    decreases headers.len() - k,
{
    let all = before + headers + after;
    if k < headers.len() {
        assert(all[(before.len() + k) as int] == headers[k as int]);
        assert(box_type::TRAK@[0] != box_type::PSSH@[0]);
        lemma_strip_step(r, all, (before.len() + k) as int, got);
        lemma_headers_go(r, before, headers, after, k + 1, got);
    }
}

/// A rewritten movie box strips to what the movie box strips to.
#[verifier::spinoff_prover]
#[verifier::rlimit(60)]
proof fn lemma_strips_alike(
    s: Seq<u8>,
    parts: Seq<Seq<u8>>,
    k: int,
    t: Target,
    mapping: Seq<(TrackType, Seq<u8>)>,
    headers: Seq<Seq<u8>>,
    wrote: bool,
    r: Seq<u8>,
    before: Seq<Seq<u8>>,
    got: Seq<u8>,
)
    requires
        run_of(s, parts),
        0 <= k <= parts.len(),
        only_headers(headers),
        tracks_kept(parts, k, t, mapping),
        run_of(r, before + moov_list(parts, k, t, mapping, headers, wrote)),
    ensures
        ({
            let none = Seq::<(TrackType, Seq<u8>)>::empty();
            let edit = SampleEdit::Strip;
            moov_from(r, before.len() as int, edit, none, Seq::empty(), false, got) == moov_from(
                s,
                k,
                edit,
                none,
                Seq::empty(),
                false,
                got,
            )
        }),
    decreases parts.len() - k,
{
    let none = Seq::<(TrackType, Seq<u8>)>::empty();
    let edit = SampleEdit::Strip;
    let list = moov_list(parts, k, t, mapping, headers, wrote);
    let all = before + list;
    let empty = Seq::<Seq<u8>>::empty();
    lemma_strip_step(s, parts, k, got);
    if k == parts.len() {
        if !wrote {
            assert(all =~= before + headers + empty);
            lemma_headers_go(r, before, headers, empty, 0, got);
        }
        lemma_strip_step(r, all, all.len() as int, got);
    } else if round_trip::type_of(parts[k]) == box_type::TRAK@ {
        let body = round_trip::payload_of(parts[k]);
        let x = trak_of(body, SampleEdit::Rewrite(t), mapping)->Ok_0;
        let rest = moov_list(parts, k + 1, t, mapping, headers, wrote);
        assert(track_kept(body, t, mapping));
        reveal(track_kept);
        assert(all[before.len() as int] == x);
        lemma_strip_step(r, all, before.len() as int, got);
        assert(before.push(x) + rest =~= all);
        if let Ok(b) = trak_of(body, edit, none) {
            lemma_strips_alike(
                s,
                parts,
                k + 1,
                t,
                mapping,
                headers,
                wrote,
                r,
                before.push(x),
                got + b,
            );
        }
    } else if round_trip::type_of(parts[k]) == box_type::PSSH@ {
        let rest = moov_list(parts, k + 1, t, mapping, headers, true);
        if wrote {
            assert(all =~= before + rest);
            lemma_strips_alike(s, parts, k + 1, t, mapping, headers, true, r, before, got);
        } else {
            assert(all =~= before + headers + rest);
            lemma_headers_go(r, before, headers, rest, 0, got);
            lemma_strips_alike(
                s,
                parts,
                k + 1,
                t,
                mapping,
                headers,
                true,
                r,
                before + headers,
                got,
            );
        }
    } else {
        let x = parts[k];
        let rest = moov_list(parts, k + 1, t, mapping, headers, wrote);
        assert(all[before.len() as int] == x);
        lemma_strip_step(r, all, before.len() as int, got);
        assert(before.push(x) + rest =~= all);
        lemma_strips_alike(
            s,
            parts,
            k + 1,
            t,
            mapping,
            headers,
            wrote,
            r,
            before.push(x),
            got + x,
        );
    }
}

/// What the edit makes of a movie box.
#[verifier::opaque]
pub open spec fn moov_of(
    s: Seq<u8>,
    edit: SampleEdit,
    mapping: Seq<(TrackType, Seq<u8>)>,
    pssh: Seq<u8>,
) -> Result<Seq<u8>, ErrorView> {
    init::edited_moov(s, edit, mapping, pssh)
}

pub proof fn lemma_moov_of(
    s: Seq<u8>,
    edit: SampleEdit,
    mapping: Seq<(TrackType, Seq<u8>)>,
    pssh: Seq<u8>,
)
    ensures
        moov_of(s, edit, mapping, pssh) == match moov_from(
            s,
            0,
            edit,
            mapping,
            pssh,
            false,
            Seq::empty(),
        ) {
            Ok(c) => Ok(cmaf::boxed(box_type::MOOV@, c)),
            Err(e) => Err(e),
        },
{
    reveal(moov_of);
    reveal(moov_from);
}

/// The tracks of a movie box that is small enough after rewriting.
#[verifier::spinoff_prover]
#[verifier::rlimit(60)]
proof fn lemma_tracks_kept(
    s: Seq<u8>,
    k: int,
    t: Target,
    mapping: Seq<(TrackType, Seq<u8>)>,
    headers: Seq<Seq<u8>>,
    wrote: bool,
)
    requires
        kept_moov(s),
        s.len() <= u64::MAX,
        protection::full_keys(mapping),
        0 <= k <= round_trip::boxes_of(s).len(),
        tracks_made(round_trip::boxes_of(s), k, t, mapping),
        ({
            let list = moov_list(round_trip::boxes_of(s), k, t, mapping, headers, wrote);
            cmaf::joined(list, list.len()).len() <= u32::MAX
        }),
    ensures
        tracks_kept(round_trip::boxes_of(s), k, t, mapping),
    decreases round_trip::boxes_of(s).len() - k,
{
    let parts = round_trip::boxes_of(s);
    let none = Seq::<(TrackType, Seq<u8>)>::empty();
    if k < parts.len() {
        let due = if wrote {
            Seq::empty()
        } else {
            headers
        };
        if round_trip::type_of(parts[k]) == box_type::TRAK@ {
            let body = round_trip::payload_of(parts[k]);
            let x = trak_of(body, SampleEdit::Rewrite(t), mapping)->Ok_0;
            let rest = moov_list(parts, k + 1, t, mapping, headers, wrote);
            lemma_joined_both(seq![x], rest);
            lemma_joined_one(x);
            lemma_tracks_kept(s, k + 1, t, mapping, headers, wrote);
            assert(trak_of(round_trip::payload_of(parts[k]), SampleEdit::Rewrite(t), mapping)
                is Ok);
            lemma_box_length(s, k);
            lemma_trak_kept(body, t, mapping, none, x);
            assert(track_kept(body, t, mapping)) by {
                reveal(track_kept);
            }
        } else if round_trip::type_of(parts[k]) == box_type::PSSH@ {
            lemma_joined_both(due, moov_list(parts, k + 1, t, mapping, headers, true));
            lemma_tracks_kept(s, k + 1, t, mapping, headers, true);
        } else {
            lemma_joined_both(
                seq![parts[k]],
                moov_list(parts, k + 1, t, mapping, headers, wrote),
            );
            lemma_tracks_kept(s, k + 1, t, mapping, headers, wrote);
        }
    }
}

/// A box of a run is whole and no longer than the run.
pub proof fn lemma_box_length(s: Seq<u8>, k: int)
    requires
        round_trip::whole_boxes(s),
        0 <= k < round_trip::boxes_of(s).len(),
    ensures
        round_trip::whole_box(round_trip::boxes_of(s)[k]),
        round_trip::boxes_of(s)[k].len() <= s.len(),
        round_trip::payload_of(round_trip::boxes_of(s)[k]).len() <= s.len(),
{
    let parts = round_trip::boxes_of(s);
    assert(round_trip::made_of(s, parts));
    assert(round_trip::whole_box(parts[k]));
    round_trip::lemma_part_length(parts, k, parts.len());
    round_trip::lemma_whole_box(parts[k]);
}

/// Rewriting a movie box leaves what stripping makes of it, and puts the new headers in the place
/// of the old ones.
#[verifier::spinoff_prover]
#[verifier::rlimit(60)]
proof fn lemma_moov_kept(
    s: Seq<u8>,
    t: Target,
    mapping: Seq<(TrackType, Seq<u8>)>,
    headers: Seq<Seq<u8>>,
    x: Seq<u8>,
) -> (around: (Seq<Seq<u8>>, Seq<Seq<u8>>))
    requires
        kept_moov(s),
        s.len() <= u64::MAX,
        protection::full_keys(mapping),
        only_headers(headers),
        moov_of(s, SampleEdit::Rewrite(t), mapping, cmaf::joined(headers, headers.len())) == Ok::<
            Seq<u8>,
            ErrorView,
        >(x),
        x.len() <= u32::MAX,
    ensures
        round_trip::whole_box(x),
        round_trip::type_of(x) == box_type::MOOV@,
        moov_of(round_trip::payload_of(x), SampleEdit::Strip, Seq::empty(), Seq::empty())
            == moov_of(s, SampleEdit::Strip, Seq::empty(), Seq::empty()),
        no_header(around.0),
        no_header(around.1),
        round_trip::made_of(round_trip::payload_of(x), around.0 + headers + around.1),
        round_trip::payload_of(x).len() <= u64::MAX,
{
    let parts = round_trip::boxes_of(s);
    let edit = SampleEdit::Rewrite(t);
    let pssh = cmaf::joined(headers, headers.len());
    let none = Seq::<(TrackType, Seq<u8>)>::empty();
    let list = moov_list(parts, 0, t, mapping, headers, false);
    assert(round_trip::made_of(s, parts));
    lemma_moov_of(s, edit, mapping, pssh);
    let r = moov_from(s, 0, edit, mapping, pssh, false, Seq::empty())->Ok_0;
    lemma_moov_made(s, parts, 0, t, mapping, headers, false, Seq::empty(), r);
    assert(r =~= cmaf::joined(list, list.len()));
    assert(x.len() == r.len() + 8);
    round_trip::boxed_reads_back(box_type::MOOV@, r);
    lemma_tracks_kept(s, 0, t, mapping, headers, false);
    lemma_list_whole(parts, 0, t, mapping, headers, false);
    let empty = Seq::<Seq<u8>>::empty();
    assert(empty + list =~= list);
    assert(run_of(r, list));
    lemma_strips_alike(s, parts, 0, t, mapping, headers, false, r, empty, Seq::empty());
    lemma_moov_of(s, SampleEdit::Strip, none, Seq::empty());
    lemma_moov_of(r, SampleEdit::Strip, none, Seq::empty());
    lemma_list_headers(parts, 0, t, mapping, headers, false)
}

/// The new headers are no longer than the movie box that they stand in.
pub proof fn lemma_list_length(
    parts: Seq<Seq<u8>>,
    k: int,
    t: Target,
    mapping: Seq<(TrackType, Seq<u8>)>,
    headers: Seq<Seq<u8>>,
)
    requires
        0 <= k <= parts.len(),
    ensures
        ({
            let list = moov_list(parts, k, t, mapping, headers, false);
            cmaf::joined(headers, headers.len()).len() <= cmaf::joined(list, list.len()).len()
        }),
    decreases parts.len() - k,
{
    if k < parts.len() {
        if round_trip::type_of(parts[k]) == box_type::TRAK@ {
            let x = trak_of(
                round_trip::payload_of(parts[k]),
                SampleEdit::Rewrite(t),
                mapping,
            )->Ok_0;
            lemma_list_length(parts, k + 1, t, mapping, headers);
            lemma_joined_both(seq![x], moov_list(parts, k + 1, t, mapping, headers, false));
        } else if round_trip::type_of(parts[k]) == box_type::PSSH@ {
            lemma_joined_both(headers, moov_list(parts, k + 1, t, mapping, headers, true));
        } else {
            lemma_list_length(parts, k + 1, t, mapping, headers);
            lemma_joined_both(
                seq![parts[k]],
                moov_list(parts, k + 1, t, mapping, headers, false),
            );
        }
    }
}

pub proof fn lemma_headers_fit(
    s: Seq<u8>,
    t: Target,
    mapping: Seq<(TrackType, Seq<u8>)>,
    headers: Seq<Seq<u8>>,
    x: Seq<u8>,
)
    requires
        kept_moov(s),
        s.len() <= u64::MAX,
        moov_of(s, SampleEdit::Rewrite(t), mapping, cmaf::joined(headers, headers.len())) == Ok::<
            Seq<u8>,
            ErrorView,
        >(x),
        x.len() <= u32::MAX,
    ensures
        cmaf::joined(headers, headers.len()).len() <= u32::MAX,
{
    let parts = round_trip::boxes_of(s);
    let edit = SampleEdit::Rewrite(t);
    let pssh = cmaf::joined(headers, headers.len());
    assert(round_trip::made_of(s, parts));
    lemma_moov_of(s, edit, mapping, pssh);
    let r = moov_from(s, 0, edit, mapping, pssh, false, Seq::empty())->Ok_0;
    lemma_moov_made(s, parts, 0, t, mapping, headers, false, Seq::empty(), r);
    lemma_list_length(parts, 0, t, mapping, headers);
    assert(x.len() == r.len() + 8);
}

// Init segments.

/// Whether rewriting an init segment changes protection only: a run of whole boxes, whose movie
/// boxes are such ones.
pub open spec fn kept_init(s: Seq<u8>) -> bool {
    &&& round_trip::whole_boxes(s)
    &&& forall|k: int| #![trigger round_trip::boxes_of(s)[k]]
        0 <= k < round_trip::boxes_of(s).len() && round_trip::type_of(round_trip::boxes_of(s)[k])
            == box_type::MOOV@ ==> kept_moov(round_trip::payload_of(round_trip::boxes_of(s)[k]))
}

/// The boxes of an init segment from `k` on, edited, after `got`.
#[verifier::opaque]
pub open spec fn init_from(
    s: Seq<u8>,
    k: int,
    edit: SampleEdit,
    mapping: Seq<(TrackType, Seq<u8>)>,
    pssh: Seq<u8>,
    ftyp: Seq<u8>,
    got: Seq<u8>,
) -> Result<Seq<u8>, ErrorView> {
    init::init_boxes(s, k, Some(edit), mapping, pssh, ftyp, got)
}

/// What the edit makes of a box of an init segment.
pub open spec fn top_of(
    p: Seq<u8>,
    edit: SampleEdit,
    mapping: Seq<(TrackType, Seq<u8>)>,
    pssh: Seq<u8>,
    ftyp: Seq<u8>,
) -> Result<Seq<u8>, ErrorView> {
    if round_trip::type_of(p) == box_type::FTYP@ {
        Ok(ftyp)
    } else if round_trip::type_of(p) == box_type::MOOV@ {
        moov_of(round_trip::payload_of(p), edit, mapping, pssh)
    } else {
        Ok(p)
    }
}

#[verifier::rlimit(60)]
proof fn lemma_init_step(
    s: Seq<u8>,
    parts: Seq<Seq<u8>>,
    k: int,
    edit: SampleEdit,
    mapping: Seq<(TrackType, Seq<u8>)>,
    pssh: Seq<u8>,
    ftyp: Seq<u8>,
    got: Seq<u8>,
)
    requires
        run_of(s, parts),
        0 <= k <= parts.len(),
    ensures
        init_from(s, k, edit, mapping, pssh, ftyp, got) == if k == parts.len() {
            Ok(got)
        } else {
            match top_of(parts[k], edit, mapping, pssh, ftyp) {
                Ok(b) => init_from(s, k + 1, edit, mapping, pssh, ftyp, got + b),
                Err(e) => Err(e),
            }
        },
{
    reveal(init_from);
    reveal(moov_of);
    round_trip::run_hands_out_every_box(s, parts);
    if k < parts.len() {
        assert(round_trip::stands_for(s, cmaf::run(s).headers[k], parts[k]));
    }
}

/// What the edit makes of each box of an init segment.
pub open spec fn made_tops(
    parts: Seq<Seq<u8>>,
    edit: SampleEdit,
    mapping: Seq<(TrackType, Seq<u8>)>,
    pssh: Seq<u8>,
    ftyp: Seq<u8>,
) -> Seq<Seq<u8>> {
    Seq::new(parts.len(), |k: int| top_of(parts[k], edit, mapping, pssh, ftyp)->Ok_0)
}

/// An edited init segment is made of its edited boxes.
pub proof fn lemma_init_made(
    s: Seq<u8>,
    parts: Seq<Seq<u8>>,
    k: nat,
    edit: SampleEdit,
    mapping: Seq<(TrackType, Seq<u8>)>,
    pssh: Seq<u8>,
    ftyp: Seq<u8>,
    r: Seq<u8>,
)
    requires
        run_of(s, parts),
        k <= parts.len(),
        init_from(
            s,
            k as int,
            edit,
            mapping,
            pssh,
            ftyp,
            cmaf::joined(made_tops(parts, edit, mapping, pssh, ftyp), k),
        ) == Ok::<Seq<u8>, ErrorView>(r),
    ensures
        r == cmaf::joined(made_tops(parts, edit, mapping, pssh, ftyp), parts.len()),
        forall|i: int|
            k <= i < parts.len() ==> top_of(#[trigger] parts[i], edit, mapping, pssh, ftyp) is Ok,
    decreases parts.len() - k,
{
    let new = made_tops(parts, edit, mapping, pssh, ftyp);
    lemma_init_step(s, parts, k as int, edit, mapping, pssh, ftyp, cmaf::joined(new, k));
    if k < parts.len() {
        lemma_init_made(s, parts, k + 1, edit, mapping, pssh, ftyp, r);
    }
}

/// Boxes of which an edit makes the same are edited to the same.
proof fn lemma_same_tops(
    a: Seq<u8>,
    b: Seq<u8>,
    old: Seq<Seq<u8>>,
    new: Seq<Seq<u8>>,
    k: int,
    edit: SampleEdit,
    mapping: Seq<(TrackType, Seq<u8>)>,
    pssh: Seq<u8>,
    ftyp: Seq<u8>,
    got: Seq<u8>,
)
    requires
        run_of(a, old),
        run_of(b, new),
        old.len() == new.len(),
        0 <= k <= old.len(),
        forall|i: int|
            0 <= i < old.len() ==> top_of(#[trigger] new[i], edit, mapping, pssh, ftyp) == top_of(
                old[i],
                edit,
                mapping,
                pssh,
                ftyp,
            ),
    ensures
        init_from(a, k, edit, mapping, pssh, ftyp, got) == init_from(
            b,
            k,
            edit,
            mapping,
            pssh,
            ftyp,
            got,
        ),
    decreases old.len() - k,
{
    lemma_init_step(a, old, k, edit, mapping, pssh, ftyp, got);
    lemma_init_step(b, new, k, edit, mapping, pssh, ftyp, got);
    if k < old.len() {
        assert(top_of(new[k], edit, mapping, pssh, ftyp) == top_of(
            old[k],
            edit,
            mapping,
            pssh,
            ftyp,
        ));
        if let Ok(x) = top_of(old[k], edit, mapping, pssh, ftyp) {
            lemma_same_tops(a, b, old, new, k + 1, edit, mapping, pssh, ftyp, got + x);
        }
    }
}

/// Whether a movie box has the given protection headers, next to each other, and no others.
pub open spec fn has_headers(moov: Seq<u8>, headers: Seq<Seq<u8>>) -> bool {
    exists|a: Seq<Seq<u8>>, b: Seq<Seq<u8>>|
        no_header(a) && no_header(b) && round_trip::made_of(
            round_trip::payload_of(moov),
            #[trigger] (a + headers + b),
        )
}

/// Whether rewriting can make `new` of the box `old` of an init segment: a file type box gives
/// way to the new one, a movie box has the new protection headers, any other box stays.
pub open spec fn top_rewritten(
    old: Seq<u8>,
    new: Seq<u8>,
    ftyp: Seq<u8>,
    headers: Seq<Seq<u8>>,
) -> bool {
    if round_trip::type_of(old) == box_type::FTYP@ {
        new == ftyp
    } else if round_trip::type_of(old) == box_type::MOOV@ {
        round_trip::type_of(new) == box_type::MOOV@ && has_headers(new, headers)
    } else {
        new == old
    }
}

/// Rewriting a box of an init segment.
#[verifier::spinoff_prover]
#[verifier::rlimit(60)]
proof fn lemma_top_kept(
    p: Seq<u8>,
    t: Target,
    systems: Seq<SystemView>,
    mapping: Seq<(TrackType, Seq<u8>)>,
    format: ContainerFormat,
    other: Seq<u8>,
    x: Seq<u8>,
)
    requires
        round_trip::whole_box(p),
        p.len() <= u64::MAX,
        protection::full_keys(mapping),
        round_trip::type_of(p) == box_type::MOOV@ ==> kept_moov(round_trip::payload_of(p))
            && x.len() <= u32::MAX,
        top_of(
            p,
            SampleEdit::Rewrite(t),
            mapping,
            init::pssh_boxes(systems, mapping, t.scheme),
            format.ftyp(),
        ) == Ok::<Seq<u8>, ErrorView>(x),
    ensures
        round_trip::whole_box(x),
        top_of(x, SampleEdit::Strip, Seq::empty(), Seq::empty(), other) == top_of(
            p,
            SampleEdit::Strip,
            Seq::empty(),
            Seq::empty(),
            other,
        ),
        top_rewritten(p, x, format.ftyp(), protection::pssh_parts(systems, mapping, t)),
{
    assert(box_type::FTYP@[0] != box_type::MOOV@[0]);
    if round_trip::type_of(p) == box_type::FTYP@ {
        protection::lemma_ftyp_box(format);
    } else if round_trip::type_of(p) == box_type::MOOV@ {
        let headers = protection::pssh_parts(systems, mapping, t);
        let groups = init::system_groups(systems, t.scheme, systems.len());
        let body = round_trip::payload_of(p);
        round_trip::lemma_whole_box(p);
        protection::lemma_pssh_parts(groups, mapping, headers, groups.len());
        lemma_headers_fit(body, t, mapping, headers, x);
        protection::lemma_pssh_whole(systems, mapping, t);
        assert(only_headers(headers));
        let (a, b) = lemma_moov_kept(body, t, mapping, headers, x);
        assert(has_headers(x, headers));
    }
}

pub proof fn lemma_edited_init(
    s: Seq<u8>,
    t: Target,
    systems: Seq<SystemView>,
    mapping: Seq<(TrackType, Seq<u8>)>,
    format: ContainerFormat,
)
    ensures
        init::edited_init(s, SampleEdit::Rewrite(t), systems, mapping, format) == init_from(
            s,
            0,
            SampleEdit::Rewrite(t),
            mapping,
            init::pssh_boxes(systems, mapping, t.scheme),
            format.ftyp(),
            Seq::empty(),
        ),
        init::edited_init(s, SampleEdit::Strip, Seq::empty(), Seq::empty(), format) == init_from(
            s,
            0,
            SampleEdit::Strip,
            Seq::empty(),
            Seq::empty(),
            format.ftyp(),
            Seq::empty(),
        ),
{
    reveal(init_from);
}

/// The size that a movie box has after rewriting.
#[verifier::rlimit(60)]
proof fn lemma_moov_at(
    s: Seq<u8>,
    k: int,
    t: Target,
    mapping: Seq<(TrackType, Seq<u8>)>,
    pssh: Seq<u8>,
    ftyp: Seq<u8>,
    x: Seq<u8>,
)
    requires
        kept_init(s),
        0 <= k < round_trip::boxes_of(s).len(),
        protection::moov_fits(s, SampleEdit::Rewrite(t), mapping, pssh),
        top_of(round_trip::boxes_of(s)[k], SampleEdit::Rewrite(t), mapping, pssh, ftyp) == Ok::<
            Seq<u8>,
            ErrorView,
        >(x),
    ensures
        round_trip::type_of(round_trip::boxes_of(s)[k]) == box_type::MOOV@ ==> x.len() <= u32::MAX
            && kept_moov(round_trip::payload_of(round_trip::boxes_of(s)[k])),
{
    reveal(protection::moov_sized);
    reveal(moov_of);
    assert(box_type::FTYP@[0] != box_type::MOOV@[0]);
}

/// Rewriting the protection of an init segment changes the protection only: the file type box
/// gives way to the new one, the protection headers to the new ones, and the rest comes out of
/// stripping the protection as it would have before, byte for byte.
#[verifier::spinoff_prover]
#[verifier::rlimit(60)]
pub proof fn rewriting_changes_only_the_protection(
    s: Seq<u8>,
    t: Target,
    systems: Seq<SystemView>,
    mapping: Seq<(TrackType, Seq<u8>)>,
    format: ContainerFormat,
    other: ContainerFormat,
    out: Seq<u8>,
)
    requires
        kept_init(s),
        s.len() <= u64::MAX,
        protection::full_keys(mapping),
        init::edited_init(s, SampleEdit::Rewrite(t), systems, mapping, format) == Ok::<
            Seq<u8>,
            ErrorView,
        >(out),
        out.len() <= u64::MAX,
        protection::moov_fits(
            s,
            SampleEdit::Rewrite(t),
            mapping,
            init::pssh_boxes(systems, mapping, t.scheme),
        ),
    ensures
        round_trip::whole_boxes(out),
        round_trip::boxes_of(out).len() == round_trip::boxes_of(s).len(),
        forall|k: int|
            0 <= k < round_trip::boxes_of(s).len() ==> top_rewritten(
                round_trip::boxes_of(s)[k],
                #[trigger] round_trip::boxes_of(out)[k],
                format.ftyp(),
                protection::pssh_parts(systems, mapping, t),
            ),
        init::edited_init(out, SampleEdit::Strip, Seq::empty(), Seq::empty(), other)
            == init::edited_init(s, SampleEdit::Strip, Seq::empty(), Seq::empty(), other),
{
    let edit = SampleEdit::Rewrite(t);
    let pssh = init::pssh_boxes(systems, mapping, t.scheme);
    let old = round_trip::boxes_of(s);
    let new = made_tops(old, edit, mapping, pssh, format.ftyp());
    let none = Seq::<(TrackType, Seq<u8>)>::empty();
    assert(round_trip::made_of(s, old));
    lemma_edited_init(s, t, systems, mapping, format);
    lemma_init_made(s, old, 0, edit, mapping, pssh, format.ftyp(), out);
    assert forall|k: int| 0 <= k < new.len() implies round_trip::whole_box(#[trigger] new[k])
        && top_of(new[k], SampleEdit::Strip, none, Seq::empty(), other.ftyp()) == top_of(
        old[k],
        SampleEdit::Strip,
        none,
        Seq::empty(),
        other.ftyp(),
    ) && top_rewritten(
        old[k],
        new[k],
        format.ftyp(),
        protection::pssh_parts(systems, mapping, t),
    ) by {
        assert(top_of(old[k], edit, mapping, pssh, format.ftyp()) is Ok);
        lemma_moov_at(s, k, t, mapping, pssh, format.ftyp(), new[k]);
        lemma_box_length(s, k);
        lemma_top_kept(old[k], t, systems, mapping, format, other.ftyp(), new[k]);
    }
    assert(run_of(out, new));
    round_trip::lemma_made_one_way(out, new);
    lemma_same_tops(
        s,
        out,
        old,
        new,
        0,
        SampleEdit::Strip,
        none,
        Seq::empty(),
        other.ftyp(),
        Seq::empty(),
    );
    lemma_edited_init(s, t, systems, mapping, other);
    lemma_edited_init(out, t, systems, mapping, other);
}

} // verus!
