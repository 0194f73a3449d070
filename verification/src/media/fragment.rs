//! What a movie fragment keeps when its sample encryption changes.

use crate::error::ErrorView;
use crate::media::box_type;
use crate::media::cmaf;
use crate::media::cmaf::{SencEntryView, SencView, TrunView};
use crate::media::round_trip;
use crate::media::segment;
use crate::media::segment::{EditView, MoofInfo};
use vstd::prelude::*;

verus! {

/// Whether a fragment and its track fragments are runs of whole boxes.
pub open spec fn well_boxed(moof: Seq<u8>) -> bool {
    &&& round_trip::whole_boxes(moof)
    &&& forall|k: int|
        0 <= k < round_trip::boxes_of(moof).len() && round_trip::type_of(
            #[trigger] round_trip::boxes_of(moof)[k],
        ) == box_type::TRAF@ ==> round_trip::whole_boxes(
            round_trip::payload_of(round_trip::boxes_of(moof)[k]),
        )
}

/// Whether none of some boxes has the given type.
pub open spec fn without(parts: Seq<Seq<u8>>, code: Seq<u8>) -> bool {
    forall|k: int| 0 <= k < parts.len() ==> round_trip::type_of(#[trigger] parts[k]) != code
}

/// Whether no track fragment of a fragment has a box of the given type.
pub open spec fn tracks_without(moof: Seq<u8>, code: Seq<u8>) -> bool {
    forall|k: int|
        0 <= k < round_trip::boxes_of(moof).len() && round_trip::type_of(
            #[trigger] round_trip::boxes_of(moof)[k],
        ) == box_type::TRAF@ ==> without(
            round_trip::boxes_of(round_trip::payload_of(round_trip::boxes_of(moof)[k])),
            code,
        )
}

// What a track fragment says of its samples.

/// What a child of a track fragment adds to what is known.
spec fn told(p: Seq<u8>, iv_size: Option<u8>, got: MoofInfo) -> Result<MoofInfo, ErrorView> {
    if round_trip::type_of(p) == box_type::SENC@ && iv_size is Some {
        match cmaf::senc_of(round_trip::payload_of(p), iv_size->0) {
            Ok(v) => Ok(MoofInfo { senc: Some(v), trun: got.trun }),
            Err(e) => Err(e),
        }
    } else if round_trip::type_of(p) == box_type::TRUN@ {
        match cmaf::trun_of(round_trip::payload_of(p)) {
            Ok(v) => Ok(MoofInfo { senc: got.senc, trun: Some(v) }),
            Err(e) => Err(e),
        }
    } else {
        Ok(got)
    }
}

/// What the first `n` children of a track fragment add to what is known.
spec fn told_by(parts: Seq<Seq<u8>>, n: nat, iv_size: Option<u8>, got: MoofInfo) -> Result<
    MoofInfo,
    ErrorView,
>
    decreases n,
{
    if n == 0 {
        Ok(got)
    } else {
        match told_by(parts, (n - 1) as nat, iv_size, got) {
            Ok(more) => told(parts[n - 1], iv_size, more),
            Err(e) => Err(e),
        }
    }
}

proof fn lemma_told_same(
    a: Seq<Seq<u8>>,
    b: Seq<Seq<u8>>,
    n: nat,
    iv_size: Option<u8>,
    got: MoofInfo,
)
    requires
        forall|k: int| 0 <= k < n ==> a[k] == b[k],
    ensures
        told_by(a, n, iv_size, got) == told_by(b, n, iv_size, got),
    decreases n,
{
    if n > 0 {
        lemma_told_same(a, b, (n - 1) as nat, iv_size, got);
    }
}

proof fn lemma_traf_told(
    s: Seq<u8>,
    parts: Seq<Seq<u8>>,
    k: nat,
    iv_size: Option<u8>,
    got: MoofInfo,
)
    requires
        round_trip::made_of(s, parts),
        s.len() <= u64::MAX,
        k <= parts.len(),
    ensures
        segment::traf_info(s, 0, iv_size, got) == match told_by(parts, k, iv_size, got) {
            Ok(more) => segment::traf_info(s, k as int, iv_size, more),
            Err(e) => Err(e),
        },
    decreases k,
{
    round_trip::run_hands_out_every_box(s, parts);
    if k > 0 {
        lemma_traf_told(s, parts, (k - 1) as nat, iv_size, got);
        let h = cmaf::run(s).headers[k - 1];
        assert(round_trip::stands_for(s, h, parts[k - 1]));
    }
}

/// What a track fragment says is what its boxes say one after the other.
proof fn lemma_traf_info(s: Seq<u8>, parts: Seq<Seq<u8>>, iv_size: Option<u8>, got: MoofInfo)
    requires
        round_trip::made_of(s, parts),
        s.len() <= u64::MAX,
    ensures
        segment::traf_info(s, 0, iv_size, got) == told_by(parts, parts.len(), iv_size, got),
{
    lemma_traf_told(s, parts, parts.len(), iv_size, got);
    round_trip::run_hands_out_every_box(s, parts);
}

// What an edit makes of a track fragment.

/// What an edit makes of a child of a track fragment.
spec fn edited_box(edit: EditView, p: Seq<u8>) -> Option<Seq<u8>> {
    let code = round_trip::type_of(p);
    let aux = code == box_type::SAIZ@ || code == box_type::SAIO@;
    match edit {
        EditView::Replace(entries, with_subs) => if code == box_type::SENC@ {
            Some(segment::senc_box(entries, with_subs))
        } else if aux {
            None
        } else {
            Some(p)
        },
        EditView::Inject(_) => Some(p),
        EditView::Strip => if code == box_type::SENC@ || aux {
            None
        } else {
            Some(p)
        },
    }
}

/// What an edit makes of the first `n` children of a track fragment.
spec fn kept(edit: EditView, parts: Seq<Seq<u8>>, n: nat) -> Seq<Seq<u8>>
    decreases n,
{
    if n == 0 {
        Seq::empty()
    } else {
        match edited_box(edit, parts[n - 1]) {
            Some(p) => kept(edit, parts, (n - 1) as nat).push(p),
            None => kept(edit, parts, (n - 1) as nat),
        }
    }
}

/// The children of an edited track fragment.
spec fn edited_boxes(edit: EditView, parts: Seq<Seq<u8>>) -> Seq<Seq<u8>> {
    match edit {
        EditView::Inject(entries) => kept(edit, parts, parts.len()).push(
            segment::senc_box(entries, false),
        ),
        _ => kept(edit, parts, parts.len()),
    }
}

proof fn lemma_children_kept(s: Seq<u8>, parts: Seq<Seq<u8>>, k: nat, edit: EditView)
    requires
        round_trip::made_of(s, parts),
        s.len() <= u64::MAX,
        k <= parts.len(),
    ensures
        segment::traf_children(s, 0, edit, Seq::empty()) == segment::traf_children(
            s,
            k as int,
            edit,
            cmaf::joined(kept(edit, parts, k), kept(edit, parts, k).len()),
        ),
    decreases k,
{
    round_trip::run_hands_out_every_box(s, parts);
    if k > 0 {
        lemma_children_kept(s, parts, (k - 1) as nat, edit);
        let before = kept(edit, parts, (k - 1) as nat);
        let p = parts[k - 1];
        let h = cmaf::run(s).headers[k - 1];
        assert(round_trip::stands_for(s, h, p));
        match edited_box(edit, p) {
            Some(q) => {
                round_trip::lemma_joined_push(before, q);
                assert(edit.child(s, h) == q);
            },
            None => {
                assert(edit.child(s, h) == Seq::<u8>::empty());
                assert(cmaf::joined(before, before.len()) + Seq::<u8>::empty() =~= cmaf::joined(
                    before,
                    before.len(),
                ));
            },
        }
    }
}

/// An edited track fragment is the edited boxes one after the other.
proof fn lemma_edited_traf(s: Seq<u8>, parts: Seq<Seq<u8>>, edit: EditView)
    requires
        round_trip::made_of(s, parts),
        s.len() <= u64::MAX,
    ensures
        segment::edited_traf(s, edit) == Ok::<Seq<u8>, ErrorView>(
            cmaf::boxed(
                box_type::TRAF@,
                cmaf::joined(edited_boxes(edit, parts), edited_boxes(edit, parts).len()),
            ),
        ),
{
    lemma_children_kept(s, parts, parts.len(), edit);
    round_trip::run_hands_out_every_box(s, parts);
    let base = kept(edit, parts, parts.len());
    match edit {
        EditView::Inject(entries) => {
            round_trip::lemma_joined_push(base, segment::senc_box(entries, false));
        },
        _ => {
            assert(cmaf::joined(base, base.len()) + Seq::<u8>::empty() =~= cmaf::joined(
                base,
                base.len(),
            ));
        },
    }
}

// The sample encryption box that an edit writes.

/// What a sample encryption box with these entries says.
pub open spec fn senc_info(entries: Seq<SencEntryView>, with_subs: bool) -> SencView {
    SencView {
        flags: if with_subs {
            2
        } else {
            0
        },
        sample_count: entries.len() as u32,
        entries,
    }
}

/// The entries that an edit writes, and whether they carry subsample ranges.
pub open spec fn entries_of(edit: EditView) -> (Seq<SencEntryView>, bool) {
    match edit {
        EditView::Replace(entries, with_subs) => (entries, with_subs),
        EditView::Inject(entries) => (entries, false),
        EditView::Strip => (Seq::empty(), false),
    }
}

/// Whether the entries that an edit writes can be read with IVs of the given size.
pub open spec fn readable(edit: EditView, iv_size: u8) -> bool {
    &&& 1 <= iv_size
    &&& forall|i: int|
        0 <= i < entries_of(edit).0.len() ==> round_trip::entry_fits(
            #[trigger] entries_of(edit).0[i],
            entries_of(edit).1,
            iv_size,
        )
}

proof fn lemma_entries_take_room(
    entries: Seq<SencEntryView>,
    with_subs: bool,
    iv_size: u8,
    n: nat,
)
    requires
        1 <= iv_size,
        n <= entries.len(),
        forall|i: int|
            0 <= i < entries.len() ==> round_trip::entry_fits(
                #[trigger] entries[i],
                with_subs,
                iv_size,
            ),
    ensures
        n <= cmaf::senc_entries_bytes(entries, with_subs, n).len(),
    decreases n,
{
    if n > 0 {
        lemma_entries_take_room(entries, with_subs, iv_size, (n - 1) as nat);
        assert(round_trip::entry_fits(entries[n - 1], with_subs, iv_size));
    }
}

proof fn lemma_written_senc(entries: Seq<SencEntryView>, with_subs: bool, iv_size: u8)
    requires
        1 <= iv_size,
        forall|i: int|
            0 <= i < entries.len() ==> round_trip::entry_fits(
                #[trigger] entries[i],
                with_subs,
                iv_size,
            ),
        segment::senc_box(entries, with_subs).len() <= u32::MAX,
    ensures
        ({
            let p = segment::senc_box(entries, with_subs);
            &&& round_trip::whole_box(p)
            &&& round_trip::type_of(p) == box_type::SENC@
            &&& round_trip::payload_of(p) == cmaf::senc_payload(entries, with_subs)
        }),
        entries.len() <= u32::MAX,
{
    let payload = cmaf::senc_payload(entries, with_subs);
    assert(segment::senc_box(entries, with_subs).len() == payload.len() + 8);
    round_trip::boxed_reads_back(box_type::SENC@, payload);
    lemma_entries_take_room(entries, with_subs, iv_size, entries.len());
}

/// The box that an edit writes is a whole senc box, and is read back.
proof fn lemma_senc_box(edit: EditView, iv_size: u8)
    requires
        readable(edit, iv_size),
        segment::senc_box(entries_of(edit).0, entries_of(edit).1).len() <= u32::MAX,
    ensures
        ({
            let (entries, with_subs) = entries_of(edit);
            let p = segment::senc_box(entries, with_subs);
            &&& round_trip::whole_box(p)
            &&& round_trip::type_of(p) == box_type::SENC@
            &&& cmaf::senc_of(round_trip::payload_of(p), iv_size) == Ok::<SencView, ErrorView>(
                senc_info(entries, with_subs),
            )
        }),
{
    let entries = entries_of(edit).0;
    let with_subs = entries_of(edit).1;
    lemma_written_senc(entries, with_subs, iv_size);
    round_trip::senc_round_trip(entries, with_subs, iv_size);
}

proof fn lemma_kept_whole(edit: EditView, parts: Seq<Seq<u8>>, n: nat, iv_size: u8)
    requires
        n <= parts.len(),
        forall|k: int| 0 <= k < parts.len() ==> round_trip::whole_box(#[trigger] parts[k]),
        readable(edit, iv_size),
        cmaf::joined(kept(edit, parts, n), kept(edit, parts, n).len()).len() <= u32::MAX,
    ensures
        forall|k: int|
            0 <= k < kept(edit, parts, n).len() ==> round_trip::whole_box(
                #[trigger] kept(edit, parts, n)[k],
            ),
    decreases n,
{
    if n > 0 {
        let before = kept(edit, parts, (n - 1) as nat);
        let p = parts[n - 1];
        assert(round_trip::whole_box(p));
        match edited_box(edit, p) {
            Some(q) => {
                round_trip::lemma_joined_push(before, q);
                lemma_kept_whole(edit, parts, (n - 1) as nat, iv_size);
                if q != p {
                    lemma_senc_box(edit, iv_size);
                }
            },
            None => {
                lemma_kept_whole(edit, parts, (n - 1) as nat, iv_size);
            },
        }
    }
}

/// The children of an edited track fragment are whole boxes.
proof fn lemma_edited_whole(edit: EditView, parts: Seq<Seq<u8>>, iv_size: u8)
    requires
        forall|k: int| 0 <= k < parts.len() ==> round_trip::whole_box(#[trigger] parts[k]),
        readable(edit, iv_size),
        cmaf::joined(edited_boxes(edit, parts), edited_boxes(edit, parts).len()).len() <= u32::MAX,
    ensures
        round_trip::made_of(
            cmaf::joined(edited_boxes(edit, parts), edited_boxes(edit, parts).len()),
            edited_boxes(edit, parts),
        ),
{
    let base = kept(edit, parts, parts.len());
    if let EditView::Inject(entries) = edit {
        round_trip::lemma_joined_push(base, segment::senc_box(entries, false));
        lemma_senc_box(edit, iv_size);
    }
    lemma_kept_whole(edit, parts, parts.len(), iv_size);
}

// What an edited fragment says of its samples.

/// How what an edited fragment says relates to what the fragment said before: the same of
/// the sample sizes, and the new entries of the encryption.
spec fn agrees(edit: EditView, got: MoofInfo, new: MoofInfo) -> bool {
    let (entries, with_subs) = entries_of(edit);
    &&& got.trun == new.trun
    &&& match edit {
        EditView::Inject(_) => got.trun is Some ==> new.senc == Some(
            senc_info(entries, with_subs),
        ),
        _ => match got.senc {
            Some(_) => new.senc == Some(senc_info(entries, with_subs)),
            None => new.senc is None,
        },
    }
}

/// With which IV size the fragment was read before the edit: none where it was clear.
spec fn read_before(edit: EditView, iv_size: Option<u8>) -> bool {
    match edit {
        EditView::Replace(_, _) => iv_size is Some,
        EditView::Inject(_) => iv_size is None,
        EditView::Strip => false,
    }
}

proof fn lemma_codes_differ()
    ensures
        box_type::SENC@ != box_type::TRUN@,
        box_type::SENC@ != box_type::SAIZ@,
        box_type::SENC@ != box_type::SAIO@,
        box_type::TRUN@ != box_type::SAIZ@,
        box_type::TRUN@ != box_type::SAIO@,
        box_type::MOOF@ != box_type::MDAT@,
{
    assert(box_type::SENC@[0] != box_type::TRUN@[0]);
    assert(box_type::SENC@[1] != box_type::SAIZ@[1]);
    assert(box_type::SENC@[1] != box_type::SAIO@[1]);
    assert(box_type::TRUN@[0] != box_type::SAIZ@[0]);
    assert(box_type::TRUN@[0] != box_type::SAIO@[0]);
    assert(box_type::MOOF@[1] != box_type::MDAT@[1]);
}

proof fn lemma_kept_agrees(
    edit: EditView,
    parts: Seq<Seq<u8>>,
    n: nat,
    old_iv: Option<u8>,
    new_iv: u8,
    got: MoofInfo,
    new: MoofInfo,
)
    requires
        edit is Replace,
        n <= parts.len(),
        read_before(edit, old_iv),
        readable(edit, new_iv),
        cmaf::joined(kept(edit, parts, n), kept(edit, parts, n).len()).len() <= u32::MAX,
        agrees(edit, got, new),
        told_by(parts, n, old_iv, got) is Ok,
    ensures
        told_by(kept(edit, parts, n), kept(edit, parts, n).len(), Some(new_iv), new) is Ok,
        agrees(
            edit,
            told_by(parts, n, old_iv, got)->Ok_0,
            told_by(kept(edit, parts, n), kept(edit, parts, n).len(), Some(new_iv), new)->Ok_0,
        ),
    decreases n,
{
    if n > 0 {
        lemma_codes_differ();
        let before = kept(edit, parts, (n - 1) as nat);
        let p = parts[n - 1];
        if let Some(q) = edited_box(edit, p) {
            round_trip::lemma_joined_push(before, q);
            lemma_told_same(before.push(q), before, before.len(), Some(new_iv), new);
        }
        lemma_kept_agrees(edit, parts, (n - 1) as nat, old_iv, new_iv, got, new);
        if round_trip::type_of(p) == box_type::SENC@ {
            lemma_senc_box(edit, new_iv);
        }
    }
}

proof fn lemma_inject_keeps(edit: EditView, parts: Seq<Seq<u8>>, n: nat)
    requires
        edit is Inject,
        n <= parts.len(),
    ensures
        kept(edit, parts, n) == parts.take(n as int),
    decreases n,
{
    if n > 0 {
        lemma_inject_keeps(edit, parts, (n - 1) as nat);
    }
    assert(kept(edit, parts, n) =~= parts.take(n as int));
}

proof fn lemma_clear_told(
    parts: Seq<Seq<u8>>,
    n: nat,
    new_iv: u8,
    got: MoofInfo,
    new: MoofInfo,
)
    requires
        n <= parts.len(),
        without(parts, box_type::SENC@),
        got.trun == new.trun,
        told_by(parts, n, None, got) is Ok,
    ensures
        told_by(parts, n, Some(new_iv), new) == Ok::<MoofInfo, ErrorView>(
            MoofInfo { senc: new.senc, trun: told_by(parts, n, None, got)->Ok_0.trun },
        ),
    decreases n,
{
    if n > 0 {
        lemma_clear_told(parts, (n - 1) as nat, new_iv, got, new);
        assert(round_trip::type_of(parts[n - 1]) != box_type::SENC@);
    }
}

/// An edited track fragment says the same of the sample sizes, and the new entries.
proof fn lemma_traf_agrees(
    edit: EditView,
    parts: Seq<Seq<u8>>,
    old_iv: Option<u8>,
    new_iv: u8,
    got: MoofInfo,
    new: MoofInfo,
)
    requires
        forall|k: int| 0 <= k < parts.len() ==> round_trip::whole_box(#[trigger] parts[k]),
        read_before(edit, old_iv),
        edit is Inject ==> without(parts, box_type::SENC@),
        readable(edit, new_iv),
        cmaf::joined(edited_boxes(edit, parts), edited_boxes(edit, parts).len()).len() <= u32::MAX,
        agrees(edit, got, new),
        told_by(parts, parts.len(), old_iv, got) is Ok,
    ensures
        ({
            let boxes = edited_boxes(edit, parts);
            &&& told_by(boxes, boxes.len(), Some(new_iv), new) is Ok
            &&& agrees(
                edit,
                told_by(parts, parts.len(), old_iv, got)->Ok_0,
                told_by(boxes, boxes.len(), Some(new_iv), new)->Ok_0,
            )
        }),
{
    let boxes = edited_boxes(edit, parts);
    match edit {
        EditView::Inject(entries) => {
            let p = segment::senc_box(entries, false);
            let base = kept(edit, parts, parts.len());
            lemma_inject_keeps(edit, parts, parts.len());
            assert(base =~= parts);
            round_trip::lemma_joined_push(base, p);
            lemma_senc_box(edit, new_iv);
            lemma_clear_told(parts, parts.len(), new_iv, got, new);
            lemma_told_same(boxes, parts, parts.len(), Some(new_iv), new);
        },
        _ => {
            lemma_kept_agrees(edit, parts, parts.len(), old_iv, new_iv, got, new);
        },
    }
}

// What stripping makes of an edited track fragment.

proof fn lemma_kept_same(edit: EditView, a: Seq<Seq<u8>>, b: Seq<Seq<u8>>, n: nat)
    requires
        forall|k: int| 0 <= k < n ==> a[k] == b[k],
    ensures
        kept(edit, a, n) == kept(edit, b, n),
    decreases n,
{
    if n > 0 {
        lemma_kept_same(edit, a, b, (n - 1) as nat);
    }
}

proof fn lemma_strip_kept(edit: EditView, parts: Seq<Seq<u8>>, n: nat, iv_size: u8)
    requires
        !(edit is Strip),
        n <= parts.len(),
        readable(edit, iv_size),
        cmaf::joined(kept(edit, parts, n), kept(edit, parts, n).len()).len() <= u32::MAX,
    ensures
        kept(EditView::Strip, kept(edit, parts, n), kept(edit, parts, n).len()) == kept(
            EditView::Strip,
            parts,
            n,
        ),
    decreases n,
{
    if n > 0 {
        let before = kept(edit, parts, (n - 1) as nat);
        let p = parts[n - 1];
        if let Some(q) = edited_box(edit, p) {
            round_trip::lemma_joined_push(before, q);
            lemma_kept_same(EditView::Strip, before.push(q), before, before.len());
            if q != p {
                lemma_senc_box(edit, iv_size);
            }
        }
        lemma_strip_kept(edit, parts, (n - 1) as nat, iv_size);
    }
}

/// Stripping an edited track fragment leaves what stripping it before the edit would have
/// left.
proof fn lemma_strip_edited(edit: EditView, parts: Seq<Seq<u8>>, iv_size: u8)
    requires
        !(edit is Strip),
        readable(edit, iv_size),
        cmaf::joined(edited_boxes(edit, parts), edited_boxes(edit, parts).len()).len() <= u32::MAX,
    ensures
        edited_boxes(EditView::Strip, edited_boxes(edit, parts)) == edited_boxes(
            EditView::Strip,
            parts,
        ),
{
    let base = kept(edit, parts, parts.len());
    if let EditView::Inject(entries) = edit {
        let p = segment::senc_box(entries, false);
        round_trip::lemma_joined_push(base, p);
        lemma_senc_box(edit, iv_size);
        lemma_kept_same(EditView::Strip, base.push(p), base, base.len());
    }
    lemma_strip_kept(edit, parts, parts.len(), iv_size);
}

// The fragment as a whole.

/// What an edit makes of a child of a fragment.
spec fn edited_part(edit: EditView, p: Seq<u8>) -> Seq<u8> {
    if round_trip::type_of(p) == box_type::TRAF@ {
        let boxes = edited_boxes(edit, round_trip::boxes_of(round_trip::payload_of(p)));
        cmaf::boxed(box_type::TRAF@, cmaf::joined(boxes, boxes.len()))
    } else {
        p
    }
}

/// What an edit makes of the children of a fragment.
spec fn edited_parts(edit: EditView, parts: Seq<Seq<u8>>) -> Seq<Seq<u8>> {
    parts.map_values(|p: Seq<u8>| edited_part(edit, p))
}

/// The payload of an edited fragment.
spec fn edited_payload(edit: EditView, moof: Seq<u8>) -> Seq<u8> {
    let parts = edited_parts(edit, round_trip::boxes_of(moof));
    cmaf::joined(parts, parts.len())
}

/// The boxes of a track fragment of a fragment.
proof fn lemma_track_boxes(moof: Seq<u8>, k: int)
    requires
        well_boxed(moof),
        moof.len() <= u64::MAX,
        0 <= k < round_trip::boxes_of(moof).len(),
        round_trip::type_of(round_trip::boxes_of(moof)[k]) == box_type::TRAF@,
    ensures
        ({
            let body = round_trip::payload_of(round_trip::boxes_of(moof)[k]);
            round_trip::made_of(body, round_trip::boxes_of(body)) && body.len() <= u64::MAX
        }),
{
    let parts = round_trip::boxes_of(moof);
    assert(round_trip::made_of(moof, parts));
    assert(round_trip::whole_box(parts[k]));
    round_trip::lemma_whole_box(parts[k]);
    round_trip::lemma_part_length(parts, k, parts.len());
    let body = round_trip::payload_of(parts[k]);
    assert(round_trip::whole_boxes(body));
}

proof fn lemma_moof_children(moof: Seq<u8>, k: nat, edit: EditView)
    requires
        well_boxed(moof),
        moof.len() <= u64::MAX,
        k <= round_trip::boxes_of(moof).len(),
    ensures
        segment::moof_children(moof, 0, edit, Seq::empty()) == segment::moof_children(
            moof,
            k as int,
            edit,
            cmaf::joined(edited_parts(edit, round_trip::boxes_of(moof)), k),
        ),
    decreases k,
{
    let parts = round_trip::boxes_of(moof);
    assert(round_trip::made_of(moof, parts));
    round_trip::run_hands_out_every_box(moof, parts);
    if k > 0 {
        lemma_moof_children(moof, (k - 1) as nat, edit);
        let p = parts[k - 1];
        let h = cmaf::run(moof).headers[k - 1];
        assert(round_trip::stands_for(moof, h, p));
        if round_trip::type_of(p) == box_type::TRAF@ {
            lemma_track_boxes(moof, k - 1);
            let body = round_trip::payload_of(p);
            lemma_edited_traf(body, round_trip::boxes_of(body), edit);
        }
    }
}

/// An edited fragment is its edited boxes one after the other.
proof fn lemma_edited_moof(moof: Seq<u8>, edit: EditView)
    requires
        well_boxed(moof),
        moof.len() <= u64::MAX,
    ensures
        segment::edited_moof(moof, edit) == Ok::<Seq<u8>, ErrorView>(
            cmaf::boxed(box_type::MOOF@, edited_payload(edit, moof)),
        ),
{
    let parts = round_trip::boxes_of(moof);
    lemma_moof_children(moof, parts.len(), edit);
    assert(round_trip::made_of(moof, parts));
    round_trip::run_hands_out_every_box(moof, parts);
}

/// A track fragment of an edited fragment is a whole box around its edited boxes.
proof fn lemma_edited_part(moof: Seq<u8>, edit: EditView, iv_size: u8, k: int)
    requires
        well_boxed(moof),
        moof.len() <= u64::MAX,
        readable(edit, iv_size),
        edited_payload(edit, moof).len() <= u32::MAX,
        0 <= k < round_trip::boxes_of(moof).len(),
        round_trip::type_of(round_trip::boxes_of(moof)[k]) == box_type::TRAF@,
    ensures
        ({
            let p = edited_parts(edit, round_trip::boxes_of(moof))[k];
            let boxes = edited_boxes(
                edit,
                round_trip::boxes_of(round_trip::payload_of(round_trip::boxes_of(moof)[k])),
            );
            &&& round_trip::whole_box(p)
            &&& round_trip::type_of(p) == box_type::TRAF@
            &&& round_trip::payload_of(p) == cmaf::joined(boxes, boxes.len())
            &&& round_trip::made_of(round_trip::payload_of(p), boxes)
            &&& round_trip::boxes_of(round_trip::payload_of(p)) == boxes
            &&& round_trip::whole_boxes(round_trip::payload_of(p))
            &&& cmaf::joined(boxes, boxes.len()).len() <= u32::MAX
        }),
{
    let parts = round_trip::boxes_of(moof);
    let new = edited_parts(edit, parts);
    let body = round_trip::payload_of(parts[k]);
    let boxes = edited_boxes(edit, round_trip::boxes_of(body));
    let payload = cmaf::joined(boxes, boxes.len());
    lemma_track_boxes(moof, k);
    round_trip::lemma_part_length(new, k, new.len());
    assert(new[k] == cmaf::boxed(box_type::TRAF@, payload));
    assert(new[k].len() == payload.len() + 8);
    round_trip::boxed_reads_back(box_type::TRAF@, payload);
    lemma_edited_whole(edit, round_trip::boxes_of(body), iv_size);
    round_trip::lemma_made_one_way(payload, boxes);
}

/// An edited fragment is again a run of whole boxes.
proof fn lemma_edited_well_boxed(moof: Seq<u8>, edit: EditView, iv_size: u8)
    requires
        well_boxed(moof),
        moof.len() <= u64::MAX,
        readable(edit, iv_size),
        edited_payload(edit, moof).len() <= u32::MAX,
    ensures
        well_boxed(edited_payload(edit, moof)),
        round_trip::boxes_of(edited_payload(edit, moof)) == edited_parts(
            edit,
            round_trip::boxes_of(moof),
        ),
{
    let parts = round_trip::boxes_of(moof);
    let new = edited_parts(edit, parts);
    let payload = edited_payload(edit, moof);
    assert(round_trip::made_of(moof, parts));
    assert forall|k: int| 0 <= k < new.len() implies round_trip::whole_box(#[trigger] new[k]) by {
        assert(round_trip::whole_box(parts[k]));
        if round_trip::type_of(parts[k]) == box_type::TRAF@ {
            lemma_edited_part(moof, edit, iv_size, k);
        }
    }
    round_trip::lemma_made_one_way(payload, new);
    assert forall|k: int|
        0 <= k < round_trip::boxes_of(payload).len() && round_trip::type_of(
            #[trigger] round_trip::boxes_of(payload)[k],
        ) == box_type::TRAF@ implies round_trip::whole_boxes(
        round_trip::payload_of(round_trip::boxes_of(payload)[k]),
    ) by {
        assert(new[k] == edited_part(edit, parts[k]));
        if round_trip::type_of(parts[k]) == box_type::TRAF@ {
            lemma_edited_part(moof, edit, iv_size, k);
        }
    }
}

/// What the first `n` children of a fragment add to what is known.
spec fn moof_told(parts: Seq<Seq<u8>>, n: nat, iv_size: Option<u8>, got: MoofInfo) -> Result<
    MoofInfo,
    ErrorView,
>
    decreases n,
{
    if n == 0 {
        Ok(got)
    } else {
        match moof_told(parts, (n - 1) as nat, iv_size, got) {
            Ok(more) => if round_trip::type_of(parts[n - 1]) == box_type::TRAF@ {
                segment::traf_info(round_trip::payload_of(parts[n - 1]), 0, iv_size, more)
            } else {
                Ok(more)
            },
            Err(e) => Err(e),
        }
    }
}

proof fn lemma_moof_told(
    s: Seq<u8>,
    parts: Seq<Seq<u8>>,
    k: nat,
    iv_size: Option<u8>,
    got: MoofInfo,
)
    requires
        round_trip::made_of(s, parts),
        s.len() <= u64::MAX,
        k <= parts.len(),
    ensures
        segment::moof_info(s, 0, iv_size, got) == match moof_told(parts, k, iv_size, got) {
            Ok(more) => segment::moof_info(s, k as int, iv_size, more),
            Err(e) => Err(e),
        },
    decreases k,
{
    round_trip::run_hands_out_every_box(s, parts);
    if k > 0 {
        lemma_moof_told(s, parts, (k - 1) as nat, iv_size, got);
        let h = cmaf::run(s).headers[k - 1];
        assert(round_trip::stands_for(s, h, parts[k - 1]));
    }
}

proof fn lemma_moof_info(s: Seq<u8>, parts: Seq<Seq<u8>>, iv_size: Option<u8>, got: MoofInfo)
    requires
        round_trip::made_of(s, parts),
        s.len() <= u64::MAX,
    ensures
        segment::moof_info(s, 0, iv_size, got) == moof_told(parts, parts.len(), iv_size, got),
{
    lemma_moof_told(s, parts, parts.len(), iv_size, got);
    round_trip::run_hands_out_every_box(s, parts);
}

proof fn lemma_moof_agrees(
    moof: Seq<u8>,
    edit: EditView,
    old_iv: Option<u8>,
    new_iv: u8,
    n: nat,
)
    requires
        well_boxed(moof),
        moof.len() <= u64::MAX,
        read_before(edit, old_iv),
        edit is Inject ==> tracks_without(moof, box_type::SENC@),
        readable(edit, new_iv),
        edited_payload(edit, moof).len() <= u32::MAX,
        n <= round_trip::boxes_of(moof).len(),
        moof_told(round_trip::boxes_of(moof), n, old_iv, segment::no_info()) is Ok,
    ensures
        ({
            let parts = round_trip::boxes_of(moof);
            let new = moof_told(edited_parts(edit, parts), n, Some(new_iv), segment::no_info());
            &&& new is Ok
            &&& agrees(edit, moof_told(parts, n, old_iv, segment::no_info())->Ok_0, new->Ok_0)
        }),
    decreases n,
{
    let parts = round_trip::boxes_of(moof);
    let new = edited_parts(edit, parts);
    if n > 0 {
        lemma_moof_agrees(moof, edit, old_iv, new_iv, (n - 1) as nat);
        let p = parts[n - 1];
        let got = moof_told(parts, (n - 1) as nat, old_iv, segment::no_info())->Ok_0;
        let more = moof_told(new, (n - 1) as nat, Some(new_iv), segment::no_info())->Ok_0;
        assert(new[n - 1] == edited_part(edit, p));
        if round_trip::type_of(p) == box_type::TRAF@ {
            let body = round_trip::payload_of(p);
            let boxes = round_trip::boxes_of(body);
            lemma_track_boxes(moof, n - 1);
            lemma_edited_part(moof, edit, new_iv, n - 1);
            lemma_traf_info(body, boxes, old_iv, got);
            lemma_traf_agrees(edit, boxes, old_iv, new_iv, got, more);
            lemma_traf_info(
                round_trip::payload_of(new[n - 1]),
                edited_boxes(edit, boxes),
                Some(new_iv),
                more,
            );
        }
    }
}

/// Stripping an edited fragment leaves what stripping it before the edit would have left.
proof fn lemma_strip_again(moof: Seq<u8>, edit: EditView, iv_size: u8)
    requires
        well_boxed(moof),
        moof.len() <= u64::MAX,
        !(edit is Strip),
        readable(edit, iv_size),
        edited_payload(edit, moof).len() <= u32::MAX,
    ensures
        segment::edited_moof(edited_payload(edit, moof), EditView::Strip) == segment::edited_moof(
            moof,
            EditView::Strip,
        ),
{
    let parts = round_trip::boxes_of(moof);
    let new = edited_parts(edit, parts);
    let payload = edited_payload(edit, moof);
    lemma_edited_well_boxed(moof, edit, iv_size);
    lemma_edited_moof(moof, EditView::Strip);
    lemma_edited_moof(payload, EditView::Strip);
    let a = edited_parts(EditView::Strip, new);
    let b = edited_parts(EditView::Strip, parts);
    assert forall|k: int| 0 <= k < parts.len() implies a[k] == b[k] by {
        assert(new[k] == edited_part(edit, parts[k]));
        if round_trip::type_of(parts[k]) == box_type::TRAF@ {
            lemma_edited_part(moof, edit, iv_size, k);
            lemma_strip_edited(
                edit,
                round_trip::boxes_of(round_trip::payload_of(parts[k])),
                iv_size,
            );
        }
    }
    assert(a =~= b);
}

/// Whether the entries of what is known have IVs of the given size, and subsample ranges
/// exactly when the flags say so.
spec fn entries_fit(got: MoofInfo, iv_size: u8) -> bool {
    match got.senc {
        Some(v) => forall|i: int|
            0 <= i < v.entries.len() ==> round_trip::entry_fits(
                #[trigger] v.entries[i],
                (v.flags / 2) % 2 == 1,
                iv_size,
            ),
        None => true,
    }
}

proof fn lemma_traf_entries_fit(s: Seq<u8>, i: int, iv_size: u8, got: MoofInfo)
    requires
        entries_fit(got, iv_size),
    ensures
        segment::traf_info(s, i, Some(iv_size), got) matches Ok(more) ==> entries_fit(more, iv_size),
    decreases cmaf::run(s).headers.len() - i,
{
    let headers = cmaf::run(s).headers;
    if 0 <= i < headers.len() {
        let body = cmaf::box_body(s, headers[i]);
        if headers[i].box_type@ == box_type::SENC@ {
            round_trip::parsed_entries_fit(body, iv_size);
            if let Ok(v) = cmaf::senc_of(body, iv_size) {
                lemma_traf_entries_fit(
                    s,
                    i + 1,
                    iv_size,
                    MoofInfo { senc: Some(v), trun: got.trun },
                );
            }
        } else if headers[i].box_type@ == box_type::TRUN@ {
            if let Ok(v) = cmaf::trun_of(body) {
                lemma_traf_entries_fit(
                    s,
                    i + 1,
                    iv_size,
                    MoofInfo { senc: got.senc, trun: Some(v) },
                );
            }
        } else {
            lemma_traf_entries_fit(s, i + 1, iv_size, got);
        }
    }
}

proof fn lemma_moof_entries_fit(s: Seq<u8>, i: int, iv_size: u8, got: MoofInfo)
    requires
        entries_fit(got, iv_size),
    ensures
        segment::moof_info(s, i, Some(iv_size), got) matches Ok(more) ==> entries_fit(more, iv_size),
    decreases cmaf::run(s).headers.len() - i,
{
    let headers = cmaf::run(s).headers;
    if 0 <= i < headers.len() {
        if headers[i].box_type@ == box_type::TRAF@ {
            let body = cmaf::box_body(s, headers[i]);
            lemma_traf_entries_fit(body, 0, iv_size, got);
            if let Ok(more) = segment::traf_info(body, 0, Some(iv_size), got) {
                lemma_moof_entries_fit(s, i + 1, iv_size, more);
            }
        } else {
            lemma_moof_entries_fit(s, i + 1, iv_size, got);
        }
    }
}

/// The sample encryption entries of a fragment have IVs of the size that the track gives, and
/// subsample ranges exactly when the flags of their box say so.
pub proof fn read_entries_fit(moof: Seq<u8>, iv_size: u8)
    ensures
        segment::encryption_info(moof, iv_size) matches Ok((senc, _)) ==> {
            forall|i: int|
                0 <= i < senc.entries.len() ==> round_trip::entry_fits(
                    #[trigger] senc.entries[i],
                    (senc.flags / 2) % 2 == 1,
                    iv_size,
                )
        },
{
    lemma_moof_entries_fit(moof, 0, iv_size, segment::no_info());
}

proof fn lemma_boxed_payload(code: Seq<u8>, a: Seq<u8>, b: Seq<u8>)
    requires
        code.len() == 4,
        cmaf::boxed(code, a) == cmaf::boxed(code, b),
    ensures
        a == b,
{
    assert(cmaf::boxed(code, a).skip(8) =~= a);
    assert(cmaf::boxed(code, b).skip(8) =~= b);
}

/// What an edited fragment says.
proof fn lemma_edited_told(moof: Seq<u8>, edit: EditView, old_iv: Option<u8>, new_iv: u8)
    requires
        well_boxed(moof),
        moof.len() <= u64::MAX,
        read_before(edit, old_iv),
        edit is Inject ==> tracks_without(moof, box_type::SENC@),
        readable(edit, new_iv),
        edited_payload(edit, moof).len() <= u32::MAX,
        segment::moof_info(moof, 0, old_iv, segment::no_info()) is Ok,
    ensures
        ({
            let new = segment::moof_info(
                edited_payload(edit, moof),
                0,
                Some(new_iv),
                segment::no_info(),
            );
            &&& new is Ok
            &&& agrees(
                edit,
                segment::moof_info(moof, 0, old_iv, segment::no_info())->Ok_0,
                new->Ok_0,
            )
        }),
{
    let parts = round_trip::boxes_of(moof);
    let new = edited_parts(edit, parts);
    let payload = edited_payload(edit, moof);
    lemma_edited_well_boxed(moof, edit, new_iv);
    assert(round_trip::made_of(moof, parts));
    assert(round_trip::made_of(payload, new));
    lemma_moof_info(moof, parts, old_iv, segment::no_info());
    lemma_moof_info(payload, new, Some(new_iv), segment::no_info());
    lemma_moof_agrees(moof, edit, old_iv, new_iv, parts.len());
}

/// A fragment that got new sample encryption says the same of the sample sizes as before,
/// gives the new entries for the encryption, and strips down to what it stripped down to
/// before.
pub proof fn edited_fragment_reads_back(
    moof: Seq<u8>,
    edit: EditView,
    old_iv: Option<u8>,
    new_iv: u8,
    payload: Seq<u8>,
)
    requires
        well_boxed(moof),
        moof.len() <= u64::MAX,
        match edit {
            EditView::Replace(_, _) => segment::encryption_info(moof, old_iv->0) is Ok && old_iv
                is Some,
            EditView::Inject(_) => segment::run_info(moof) is Ok && old_iv is None
                && tracks_without(moof, box_type::SENC@),
            EditView::Strip => false,
        },
        readable(edit, new_iv),
        segment::edited_moof(moof, edit) == Ok::<Seq<u8>, ErrorView>(
            cmaf::boxed(box_type::MOOF@, payload),
        ),
        payload.len() <= u32::MAX,
    ensures
        ({
            let trun = match old_iv {
                Some(iv_size) => (segment::encryption_info(moof, iv_size)->Ok_0).1,
                None => segment::run_info(moof)->Ok_0,
            };
            segment::encryption_info(payload, new_iv) == Ok::<(SencView, TrunView), ErrorView>(
                (senc_info(entries_of(edit).0, entries_of(edit).1), trun),
            )
        }),
        segment::edited_moof(payload, EditView::Strip) == segment::edited_moof(
            moof,
            EditView::Strip,
        ),
{
    lemma_edited_moof(moof, edit);
    lemma_boxed_payload(box_type::MOOF@, edited_payload(edit, moof), payload);
    lemma_strip_again(moof, edit, new_iv);
    lemma_edited_told(moof, edit, old_iv, new_iv);
}

/// Whether every track fragment of a fragment has one senc box, as its last box.
pub open spec fn one_senc_each(moof: Seq<u8>) -> bool {
    forall|k: int|
        0 <= k < round_trip::boxes_of(moof).len() && round_trip::type_of(
            #[trigger] round_trip::boxes_of(moof)[k],
        ) == box_type::TRAF@ ==> one_senc(
            round_trip::boxes_of(round_trip::payload_of(round_trip::boxes_of(moof)[k])),
        )
}

/// Whether the last of some boxes, and no other, is a senc box.
pub open spec fn one_senc(boxes: Seq<Seq<u8>>) -> bool {
    boxes.len() > 0 && round_trip::type_of(boxes.last()) == box_type::SENC@ && without(
        boxes.drop_last(),
        box_type::SENC@,
    )
}

/// A fragment that had no senc box and got one has one in each of its track fragments.
pub proof fn injected_tracks_have_one_senc(
    moof: Seq<u8>,
    entries: Seq<SencEntryView>,
    iv_size: u8,
    payload: Seq<u8>,
)
    requires
        well_boxed(moof),
        moof.len() <= u64::MAX,
        tracks_without(moof, box_type::SENC@),
        readable(EditView::Inject(entries), iv_size),
        segment::edited_moof(moof, EditView::Inject(entries)) == Ok::<Seq<u8>, ErrorView>(
            cmaf::boxed(box_type::MOOF@, payload),
        ),
        payload.len() <= u32::MAX,
    ensures
        one_senc_each(payload),
{
    let edit = EditView::Inject(entries);
    let parts = round_trip::boxes_of(moof);
    lemma_edited_moof(moof, edit);
    lemma_boxed_payload(box_type::MOOF@, edited_payload(edit, moof), payload);
    lemma_edited_well_boxed(moof, edit, iv_size);
    assert forall|k: int|
        0 <= k < round_trip::boxes_of(payload).len() && round_trip::type_of(
            #[trigger] round_trip::boxes_of(payload)[k],
        ) == box_type::TRAF@ implies one_senc(
        round_trip::boxes_of(round_trip::payload_of(round_trip::boxes_of(payload)[k])),
    ) by {
        let p = parts[k];
        assert(edited_parts(edit, parts)[k] == edited_part(edit, p));
        assert(round_trip::type_of(p) == box_type::TRAF@);
        lemma_edited_part(moof, edit, iv_size, k);
        let old = round_trip::boxes_of(round_trip::payload_of(p));
        lemma_inject_keeps(edit, old, old.len());
        assert(old.take(old.len() as int) =~= old);
        let new = old.push(segment::senc_box(entries, false));
        round_trip::lemma_part_length(new, old.len() as int, new.len());
        lemma_senc_box(edit, iv_size);
        assert(new.drop_last() =~= old);
        assert(without(old, box_type::SENC@));
    }
}

/// Whether the track fragments of a fragment have eight-byte headers.
pub open spec fn compact_tracks(moof: Seq<u8>) -> bool {
    forall|k: int|
        0 <= k < round_trip::boxes_of(moof).len() && round_trip::type_of(
            #[trigger] round_trip::boxes_of(moof)[k],
        ) == box_type::TRAF@ ==> round_trip::head_of(round_trip::boxes_of(moof)[k]).header_size
            == 8
}

proof fn lemma_strip_keeps(parts: Seq<Seq<u8>>, n: nat)
    requires
        n <= parts.len(),
        without(parts, box_type::SENC@),
        without(parts, box_type::SAIZ@),
        without(parts, box_type::SAIO@),
    ensures
        kept(EditView::Strip, parts, n) == parts.take(n as int),
    decreases n,
{
    if n > 0 {
        lemma_strip_keeps(parts, (n - 1) as nat);
        assert(round_trip::type_of(parts[n - 1]) != box_type::SENC@);
    }
    assert(kept(EditView::Strip, parts, n) =~= parts.take(n as int));
}

/// Stripping a clear fragment changes nothing.
pub proof fn clear_fragment_stays(moof: Seq<u8>)
    requires
        well_boxed(moof),
        compact_tracks(moof),
        tracks_without(moof, box_type::SENC@),
        tracks_without(moof, box_type::SAIZ@),
        tracks_without(moof, box_type::SAIO@),
        moof.len() <= u64::MAX,
    ensures
        segment::edited_moof(moof, EditView::Strip) == Ok::<Seq<u8>, ErrorView>(
            cmaf::boxed(box_type::MOOF@, moof),
        ),
{
    let parts = round_trip::boxes_of(moof);
    let new = edited_parts(EditView::Strip, parts);
    lemma_edited_moof(moof, EditView::Strip);
    assert(round_trip::made_of(moof, parts));
    assert forall|k: int| 0 <= k < parts.len() implies new[k] == parts[k] by {
        let p = parts[k];
        assert(round_trip::whole_box(p));
        if round_trip::type_of(p) == box_type::TRAF@ {
            let body = round_trip::payload_of(p);
            let boxes = round_trip::boxes_of(body);
            lemma_track_boxes(moof, k);
            lemma_strip_keeps(boxes, boxes.len());
            assert(edited_boxes(EditView::Strip, boxes) =~= boxes);
            round_trip::compact_box_is_rebuilt(p);
        }
    }
    assert(new =~= parts);
}


// Which boxes an edit leaves.

/// Whether a box is a `saiz` or a `saio` box, which say where encryption information stands.
pub open spec fn points_to_entries(p: Seq<u8>) -> bool {
    ||| round_trip::type_of(p) == seq![0x73u8, 0x61, 0x69, 0x7a]
    ||| round_trip::type_of(p) == seq![0x73u8, 0x61, 0x69, 0x6f]
}

/// Whether a box is a `senc` box.
pub open spec fn holds_entries(p: Seq<u8>) -> bool {
    round_trip::type_of(p) == seq![0x73u8, 0x65, 0x6e, 0x63]
}

proof fn lemma_aux_codes()
    ensures
        box_type::SENC@ == seq![0x73u8, 0x65, 0x6e, 0x63],
        box_type::SAIZ@ == seq![0x73u8, 0x61, 0x69, 0x7a],
        box_type::SAIO@ == seq![0x73u8, 0x61, 0x69, 0x6f],
{
    assert(box_type::SENC@ =~= seq![0x73u8, 0x65, 0x6e, 0x63]);
    assert(box_type::SAIZ@ =~= seq![0x73u8, 0x61, 0x69, 0x7a]);
    assert(box_type::SAIO@ =~= seq![0x73u8, 0x61, 0x69, 0x6f]);
}

proof fn lemma_kept_filters(parts: Seq<Seq<u8>>, n: nat, entries: Seq<SencEntryView>, with_subs: bool)
    requires
        n <= parts.len(),
    ensures
        kept(EditView::Strip, parts, n) == parts.take(n as int).filter(
            |p: Seq<u8>| !holds_entries(p) && !points_to_entries(p),
        ),
        kept(EditView::Inject(entries), parts, n) == parts.take(n as int),
        kept(EditView::Replace(entries, with_subs), parts, n) == parts.take(n as int).filter(
            |p: Seq<u8>| !points_to_entries(p),
        ).map_values(
            |p: Seq<u8>|
                if holds_entries(p) {
                    segment::senc_box(entries, with_subs)
                } else {
                    p
                },
        ),
    decreases n,
{
    reveal(Seq::filter);
    lemma_aux_codes();
    let f = |p: Seq<u8>| !holds_entries(p) && !points_to_entries(p);
    let g = |p: Seq<u8>| !points_to_entries(p);
    let h = |p: Seq<u8>|
        if holds_entries(p) {
            segment::senc_box(entries, with_subs)
        } else {
            p
        };
    let t = parts.take(n as int);
    if n > 0 {
        lemma_kept_filters(parts, (n - 1) as nat, entries, with_subs);
        assert(t.drop_last() =~= parts.take(n - 1));
        let p = parts[n - 1];
        assert(t.last() == p);
        let before = parts.take(n - 1);
        assert(holds_entries(p) ==> !points_to_entries(p)) by {
            assert(seq![0x73u8, 0x65, 0x6e, 0x63][1] != seq![0x73u8, 0x61, 0x69, 0x7a][1]);
            assert(seq![0x73u8, 0x65, 0x6e, 0x63][1] != seq![0x73u8, 0x61, 0x69, 0x6f][1]);
        }
        if g(p) {
            assert(t.filter(g) == before.filter(g).push(p));
            assert(before.filter(g).push(p).map_values(h) =~= before.filter(g).map_values(h).push(
                h(p),
            ));
        } else {
            assert(t.filter(g) == before.filter(g));
        }
        assert(kept(EditView::Inject(entries), parts, n) =~= t);
    } else {
        assert(t =~= Seq::<Seq<u8>>::empty());
        assert(t.filter(g).map_values(h) =~= Seq::<Seq<u8>>::empty());
    }
}

/// Decrypting drops from a track fragment the boxes of encryption information and those that
/// point to them, encrypting adds one box of encryption information at the end, and changing the
/// encryption puts the new information in the place of the old; every other box stays, byte for
/// byte and in order.
pub proof fn edits_keep_the_other_boxes(
    s: Seq<u8>,
    parts: Seq<Seq<u8>>,
    entries: Seq<SencEntryView>,
    with_subs: bool,
)
    requires
        round_trip::made_of(s, parts),
        s.len() <= u64::MAX,
    ensures
        ({
            let clear = parts.filter(|p: Seq<u8>| !holds_entries(p) && !points_to_entries(p));
            let added = parts.push(segment::senc_box(entries, false));
            let changed = parts.filter(|p: Seq<u8>| !points_to_entries(p)).map_values(
                |p: Seq<u8>|
                    if holds_entries(p) {
                        segment::senc_box(entries, with_subs)
                    } else {
                        p
                    },
            );
            let traf = seq![0x74u8, 0x72, 0x61, 0x66];
            &&& segment::edited_traf(s, EditView::Strip) == Ok::<Seq<u8>, ErrorView>(
                cmaf::boxed(traf, cmaf::joined(clear, clear.len())),
            )
            &&& segment::edited_traf(s, EditView::Inject(entries)) == Ok::<Seq<u8>, ErrorView>(
                cmaf::boxed(traf, cmaf::joined(added, added.len())),
            )
            &&& segment::edited_traf(s, EditView::Replace(entries, with_subs)) == Ok::<
                Seq<u8>,
                ErrorView,
            >(cmaf::boxed(traf, cmaf::joined(changed, changed.len())))
        }),
{
    lemma_kept_filters(parts, parts.len(), entries, with_subs);
    assert(parts.take(parts.len() as int) =~= parts);
    assert(box_type::TRAF@ =~= seq![0x74u8, 0x72, 0x61, 0x66]);
    lemma_edited_traf(s, parts, EditView::Strip);
    lemma_edited_traf(s, parts, EditView::Inject(entries));
    lemma_edited_traf(s, parts, EditView::Replace(entries, with_subs));
}

} // verus!
