//! Which key the tracks of an init segment have after an edit.

use crate::bytes;
use crate::drm::scheme::EncryptionScheme;
use crate::drm::SystemView;
use crate::error::ErrorView;
use crate::media::box_type;
use crate::media::cmaf;
use crate::media::codec;
use crate::media::container::ContainerFormat;
use crate::media::found;
use crate::media::init;
use crate::media::init::{SampleEdit, Target};
use crate::media::kept;
use crate::media::protection;
use crate::media::round_trip;
use crate::media::TrackType;
use vstd::prelude::*;

verus! {

// Tracks and keys.

/// Whether box `i` of a run of whole boxes is the first of a type, with the given payload.
pub open spec fn first_of(s: Seq<u8>, code: Seq<u8>, i: int, body: Seq<u8>) -> bool {
    let parts = round_trip::boxes_of(s);
    &&& round_trip::whole_boxes(s)
    &&& 0 <= i < parts.len()
    &&& round_trip::type_of(parts[i]) == code
    &&& round_trip::payload_of(parts[i]) == body
    &&& forall|j: int| 0 <= j < i ==> round_trip::type_of(#[trigger] parts[j]) != code
}

/// Whether the handler box of a track, in its media box, names a handler.
pub open spec fn handled_by(trak: Seq<u8>, handler: Seq<u8>) -> bool {
    exists|i: int, mdia: Seq<u8>, j: int, hdlr: Seq<u8>|
        #![trigger first_of(trak, box_type::MDIA@, i, mdia), first_of(mdia, box_type::HDLR@, j, hdlr)]
        first_of(trak, box_type::MDIA@, i, mdia) && first_of(mdia, box_type::HDLR@, j, hdlr)
            && hdlr.len() >= 12 && hdlr.subrange(8, 12) == handler
}

/// Whether a handler is that of a type of track: `vide`, `soun`, `subt` or `text`.
pub open spec fn handler_of(kind: TrackType, handler: Seq<u8>) -> bool {
    match kind {
        TrackType::Video => handler == seq![0x76u8, 0x69, 0x64, 0x65],
        TrackType::Audio => handler == seq![0x73u8, 0x6f, 0x75, 0x6e],
        TrackType::Subtitle => handler == seq![0x73u8, 0x75, 0x62, 0x74] || handler == seq![
            0x74u8,
            0x65,
            0x78,
            0x74,
        ],
        TrackType::Unknown => false,
    }
}

/// Whether the first entry of a mapping for a type of track has a key.
pub open spec fn mapped_to(mapping: Seq<(TrackType, Seq<u8>)>, kind: TrackType, key: Seq<u8>) -> bool {
    exists|i: int| #[trigger] mapped_at(mapping, kind, key, i)
}

/// Whether entry `i` of a mapping is the first for a type of track, and has a key.
pub open spec fn mapped_at(
    mapping: Seq<(TrackType, Seq<u8>)>,
    kind: TrackType,
    key: Seq<u8>,
    i: int,
) -> bool {
    &&& 0 <= i < mapping.len()
    &&& mapping[i] == (kind, key)
    &&& forall|j: int| 0 <= j < i ==> (#[trigger] mapping[j]).0 != kind
}

proof fn lemma_header_of(s: Seq<u8>, code: Seq<u8>, i: int, body: Seq<u8>, k: int)
    requires
        first_of(s, code, i, body),
        s.len() <= u64::MAX,
        0 <= k <= i,
    ensures
        cmaf::find_header(cmaf::run(s).headers, k, code) == Some(cmaf::run(s).headers[i]),
        cmaf::box_body(s, cmaf::run(s).headers[i]) == body,
    decreases i - k,
{
    let parts = round_trip::boxes_of(s);
    assert(round_trip::made_of(s, parts));
    round_trip::run_hands_out_every_box(s, parts);
    assert(round_trip::stands_for(s, cmaf::run(s).headers[i], parts[i]));
    assert(round_trip::stands_for(s, cmaf::run(s).headers[k], parts[k]));
    if k < i {
        assert(round_trip::type_of(parts[k]) != code);
        lemma_header_of(s, code, i, body, k + 1);
    }
}

proof fn lemma_mapped(
    mapping: Seq<(TrackType, Seq<u8>)>,
    kind: TrackType,
    key: Seq<u8>,
    i: int,
    k: int,
)
    requires
        mapped_at(mapping, kind, key, i),
        0 <= k <= i,
    ensures
        codec::lookup(mapping, kind, k) == Some(key),
    decreases i - k,
{
    if k < i {
        assert(mapping[k].0 != kind);
        lemma_mapped(mapping, kind, key, i, k + 1);
    }
}

/// The key of a track is the one that the mapping has for the type that its handler names.
proof fn lemma_key(
    trak: Seq<u8>,
    handler: Seq<u8>,
    kind: TrackType,
    mapping: Seq<(TrackType, Seq<u8>)>,
    key: Seq<u8>,
)
    requires
        trak.len() <= u64::MAX,
        handled_by(trak, handler),
        handler_of(kind, handler),
        mapped_to(mapping, kind, key),
    ensures
        init::track_kid(trak, mapping) == key,
{
    let (i, mdia, j, hdlr) = choose|i: int, mdia: Seq<u8>, j: int, hdlr: Seq<u8>|
        #![trigger first_of(trak, box_type::MDIA@, i, mdia), first_of(mdia, box_type::HDLR@, j, hdlr)]
        first_of(trak, box_type::MDIA@, i, mdia) && first_of(mdia, box_type::HDLR@, j, hdlr)
            && hdlr.len() >= 12 && hdlr.subrange(8, 12) == handler;
    lemma_header_of(trak, box_type::MDIA@, i, mdia, 0);
    kept::lemma_box_length(trak, i);
    lemma_header_of(mdia, box_type::HDLR@, j, hdlr, 0);
    let at = choose|at: int| #[trigger] mapped_at(mapping, kind, key, at);
    lemma_mapped(mapping, kind, key, at, 0);
    assert(seq![0x76u8, 0x69, 0x64, 0x65][0] != seq![0x73u8, 0x6f, 0x75, 0x6e][0]);
    assert(seq![0x76u8, 0x69, 0x64, 0x65][0] != seq![0x73u8, 0x75, 0x62, 0x74][0]);
    assert(seq![0x76u8, 0x69, 0x64, 0x65][0] != seq![0x74u8, 0x65, 0x78, 0x74][0]);
    assert(seq![0x73u8, 0x6f, 0x75, 0x6e][1] != seq![0x73u8, 0x75, 0x62, 0x74][1]);
    assert(seq![0x73u8, 0x6f, 0x75, 0x6e][0] != seq![0x74u8, 0x65, 0x78, 0x74][0]);
    assert(init::track_type_of(trak) == kind);
}

// Sample entries.

/// Whether a type is that of a protected sample entry: it starts with `enc`.
pub open spec fn enc_code(code: Seq<u8>) -> bool {
    code.len() == 4 && code[0] == 0x65 && code[1] == 0x6e && code[2] == 0x63
}

/// Whether the protection that is found in a sample entry, where it is a protected one, has a
/// key, and the scheme, IV size and pattern of a target. Entries whose size field spells `sinf`
/// or the end of it are left out.
pub open spec fn entry_keyed(e: Seq<u8>, t: Target, key: Seq<u8>) -> bool {
    enc_code(round_trip::type_of(e)) && found::plain_size(e.len()) ==> (init::protection_of(e)
        matches Ok(Some(info)) && info.tenc.default_kid == key && info.tenc.is_protected == 1
        && info.tenc.default_per_sample_iv_size == t.iv_size && info.tenc.default_crypt_byte_block
        == t.pattern.0 % 16 && info.tenc.default_skip_byte_block == t.pattern.1 % 16
        && info.scheme_type == (match t.scheme {
        EncryptionScheme::Cenc => seq![0x63u8, 0x65, 0x6e, 0x63],
        EncryptionScheme::Cbcs => seq![0x63u8, 0x62, 0x63, 0x73],
        EncryptionScheme::Clear => info.scheme_type,
    }))
}

/// Whether the protection of a sample entry can be told after an edit: a clear entry has no
/// letters `sinf` in it, and a protected one has a sinf box behind whatever has none.
pub open spec fn entry_open(q: Seq<u8>, edit: SampleEdit) -> bool {
    &&& round_trip::whole_box(q)
    &&& match edit {
        SampleEdit::Inject(_) => !enc_code(round_trip::type_of(q)) && (init::encrypted_code(
            round_trip::type_of(q),
        ) is Some ==> found::unmarked(round_trip::payload_of(q))),
        SampleEdit::Rewrite(_) => enc_code(round_trip::type_of(q)) ==> exists|
            format: Seq<u8>,
            before: Seq<u8>,
            info: Seq<u8>,
            after: Seq<u8>,
        | #[trigger]
            found::entry_protects(q, format, before, info, after),
        SampleEdit::Strip => false,
    }
}

#[verifier::spinoff_prover]
#[verifier::rlimit(60)]
proof fn lemma_entry_keyed(q: Seq<u8>, edit: SampleEdit, kid: Seq<u8>, e: Seq<u8>)
    requires
        entry_open(q, edit),
        q.len() <= u64::MAX,
        kid.len() == 16,
        kept::entry_of(q, edit, kid) == Ok::<Seq<u8>, ErrorView>(e),
        e.len() <= u32::MAX,
    ensures
        round_trip::whole_box(e),
        entry_keyed(e, found::target_of(edit), kid),
{
    let code = round_trip::type_of(q);
    kept::lemma_stands_alone(q);
    round_trip::lemma_whole_box(q);
    lemma_entry_shape(q, edit, kid, e);
    if enc_code(round_trip::type_of(e)) && found::plain_size(e.len()) {
        let h = round_trip::head_of(q);
        assert(init::edited_entry(q, h, edit, kid) == Ok::<Seq<u8>, ErrorView>(e)) by {
            reveal(kept::entry_of);
        }
        let format = match edit {
            SampleEdit::Inject(_) => code,
            _ => {
                let (f, b, i, a) = choose|
                    format: Seq<u8>,
                    before: Seq<u8>,
                    info: Seq<u8>,
                    after: Seq<u8>,
                | #[trigger]
                    found::entry_protects(q, format, before, info, after);
                f
            },
        };
        assert(found::entry_ready(q, edit, format));
        found::lemma_entry_leads(q, h, q, edit, kid, format, e);
        assert(format.len() == 4) by {
            lemma_format(q, edit, format);
        }
        found::lemma_led_to_is_found(e, format, found::target_of(edit), kid);
        lemma_schemes(found::target_of(edit));
    }
}

proof fn lemma_schemes(t: Target)
    ensures
        t.scheme is Cenc ==> t.scheme.code() == seq![0x63u8, 0x65, 0x6e, 0x63],
        t.scheme is Cbcs ==> t.scheme.code() == seq![0x63u8, 0x62, 0x63, 0x73],
{
    assert(t.scheme is Cenc ==> t.scheme.code() =~= seq![0x63u8, 0x65, 0x6e, 0x63]);
    assert(t.scheme is Cbcs ==> t.scheme.code() =~= seq![0x63u8, 0x62, 0x63, 0x73]);
}

proof fn lemma_format(q: Seq<u8>, edit: SampleEdit, format: Seq<u8>)
    requires
        found::entry_ready(q, edit, format),
    ensures
        format.len() == 4,
{
    match edit {
        SampleEdit::Rewrite(_) => {
            let (before, info, after) = choose|before: Seq<u8>, info: Seq<u8>, after: Seq<u8>|
                found::entry_protects(q, format, before, info, after);
            let (b, c) = choose|b: Seq<u8>, c: Seq<u8>| #[trigger]
                protection::protects_by(info, format, b, c);
        },
        _ => {
            round_trip::lemma_whole_box(q);
        },
    }
}

/// An edited sample entry is a whole box; it is a protected one where it was, or could be.
#[verifier::rlimit(60)]
proof fn lemma_entry_shape(q: Seq<u8>, edit: SampleEdit, kid: Seq<u8>, e: Seq<u8>)
    requires
        entry_open(q, edit),
        q.len() <= u64::MAX,
        kept::entry_of(q, edit, kid) == Ok::<Seq<u8>, ErrorView>(e),
        e.len() <= u32::MAX,
    ensures
        round_trip::whole_box(e),
        enc_code(round_trip::type_of(e)) ==> match edit {
            SampleEdit::Inject(_) => init::encrypted_code(round_trip::type_of(q)) is Some,
            _ => enc_code(round_trip::type_of(q)),
        },
{
    reveal(kept::entry_of);
    let code = round_trip::type_of(q);
    let body = round_trip::payload_of(q);
    kept::lemma_stands_alone(q);
    round_trip::lemma_whole_box(q);
    match edit {
        SampleEdit::Inject(t) => {
            if let Some(c) = init::encrypted_code(code) {
                let b = body + init::sinf_box(code, t, kid);
                assert(c.len() == 4);
                assert(e == cmaf::boxed(c, b));
                assert(e.len() == b.len() + 8);
                round_trip::boxed_reads_back(c, b);
            } else {
                assert(e == q);
            }
        },
        SampleEdit::Rewrite(t) => {
            let b = init::entry_rewritten(body, 0, kid, t, Seq::empty())->Ok_0;
            assert(e == cmaf::boxed(code, b));
            assert(e.len() == b.len() + 8);
            round_trip::boxed_reads_back(code, b);
        },
        SampleEdit::Strip => {},
    }
}

// Containers.

/// Whether the protection of the entries of a sample description can be told after an edit.
pub open spec fn stsd_open(p: Seq<u8>, edit: SampleEdit) -> bool {
    &&& 8 <= p.len()
    &&& round_trip::whole_boxes(p.skip(8))
    &&& round_trip::boxes_of(p.skip(8)).len() == bytes::be32(p, 4)
    &&& forall|k: int|
        0 <= k < round_trip::boxes_of(p.skip(8)).len() ==> entry_open(
            #[trigger] round_trip::boxes_of(p.skip(8))[k],
            edit,
        )
}

/// Whether every protected entry of a sample description has a key.
pub open spec fn stsd_keyed(p: Seq<u8>, t: Target, key: Seq<u8>) -> bool {
    &&& 8 <= p.len()
    &&& round_trip::whole_boxes(p.skip(8))
    &&& forall|k: int|
        0 <= k < round_trip::boxes_of(p.skip(8)).len() ==> entry_keyed(
            #[trigger] round_trip::boxes_of(p.skip(8))[k],
            t,
            key,
        )
}

/// Whether the protection below a container can be told after an edit.
pub open spec fn inside_open(s: Seq<u8>, edit: SampleEdit) -> bool
    decreases s.len(),
{
    &&& round_trip::whole_boxes(s)
    &&& forall|k: int| #![trigger round_trip::boxes_of(s)[k]]
        0 <= k < round_trip::boxes_of(s).len() ==> {
            let p = round_trip::boxes_of(s)[k];
            let body = round_trip::payload_of(p);
            &&& protection::holds_boxes(round_trip::type_of(p)) ==> body.len() < s.len()
                && inside_open(body, edit)
            &&& edit is Rewrite ==> round_trip::type_of(p) != box_type::MDIA@
            &&& round_trip::type_of(p) == box_type::STSD@ ==> stsd_open(body, edit)
        }
}

/// Whether every protected sample entry below a container has a key.
pub open spec fn inside_keyed(s: Seq<u8>, t: Target, key: Seq<u8>) -> bool
    decreases s.len(),
{
    &&& round_trip::whole_boxes(s)
    &&& forall|k: int| #![trigger round_trip::boxes_of(s)[k]]
        0 <= k < round_trip::boxes_of(s).len() ==> {
            let p = round_trip::boxes_of(s)[k];
            let body = round_trip::payload_of(p);
            &&& protection::holds_boxes(round_trip::type_of(p)) ==> body.len() < s.len()
                && inside_keyed(body, t, key)
            &&& round_trip::type_of(p) == box_type::STSD@ ==> stsd_keyed(body, t, key)
        }
}

#[verifier::spinoff_prover]
#[verifier::rlimit(60)]
proof fn lemma_stsd_keyed(p: Seq<u8>, edit: SampleEdit, kid: Seq<u8>, x: Seq<u8>)
    requires
        round_trip::whole_box(p),
        p.len() <= u64::MAX,
        stsd_open(round_trip::payload_of(p), edit),
        kid.len() == 16,
        kept::stsd_of(p, edit, kid) == Ok::<Seq<u8>, ErrorView>(x),
        x.len() <= u32::MAX,
    ensures
        round_trip::whole_box(x),
        round_trip::type_of(x) == box_type::STSD@,
        stsd_keyed(round_trip::payload_of(x), found::target_of(edit), kid),
{
    let t = found::target_of(edit);
    let body = round_trip::payload_of(p);
    let old = round_trip::boxes_of(body.skip(8));
    let new = kept::made_entries(old, edit, kid);
    round_trip::lemma_whole_box(p);
    assert(kept::has_entries(body, old));
    kept::lemma_stsd_of(p, old, edit, kid);
    let entries = kept::entries_from(body, old, 0, edit, kid, Seq::empty())->Ok_0;
    kept::lemma_entries_made(body, old, 0, edit, kid, entries);
    assert(x.len() == 16 + entries.len());
    assert forall|k: int| 0 <= k < new.len() implies round_trip::whole_box(#[trigger] new[k])
        && entry_keyed(new[k], t, kid) by {
        assert(entry_open(old[k], edit));
        assert(kept::entry_of(old[k], edit, kid) is Ok);
        round_trip::lemma_part_length(old, k, old.len());
        round_trip::lemma_part_length(new, k, new.len());
        lemma_entry_keyed(old[k], edit, kid, new[k]);
    }
    kept::lemma_new_entries(body, new, x);
    round_trip::lemma_made_one_way(round_trip::payload_of(x).skip(8), new);
}

/// Whether the protection below a box can be told after an edit.
#[verifier::opaque]
spec fn part_open(p: Seq<u8>, edit: SampleEdit) -> bool {
    &&& round_trip::whole_box(p)
    &&& p.len() <= u64::MAX
    &&& edit is Rewrite ==> round_trip::type_of(p) != box_type::MDIA@
    &&& protection::holds_boxes(round_trip::type_of(p)) ==> inside_open(
        round_trip::payload_of(p),
        edit,
    )
    &&& round_trip::type_of(p) == box_type::STSD@ ==> stsd_open(round_trip::payload_of(p), edit)
}

/// Whether every protected sample entry below a box has a key.
#[verifier::opaque]
spec fn part_keyed(p: Seq<u8>, t: Target, key: Seq<u8>) -> bool {
    &&& round_trip::whole_box(p)
    &&& protection::holds_boxes(round_trip::type_of(p)) ==> inside_keyed(
        round_trip::payload_of(p),
        t,
        key,
    )
    &&& round_trip::type_of(p) == box_type::STSD@ ==> stsd_keyed(round_trip::payload_of(p), t, key)
}

#[verifier::spinoff_prover]
#[verifier::rlimit(60)]
proof fn lemma_open_parts(s: Seq<u8>, edit: SampleEdit)
    requires
        inside_open(s, edit),
        s.len() <= u64::MAX,
    ensures
        kept::run_of(s, round_trip::boxes_of(s)),
        forall|k: int|
            0 <= k < round_trip::boxes_of(s).len() ==> part_open(
                #[trigger] round_trip::boxes_of(s)[k],
                edit,
            ),
        forall|k: int|
            0 <= k < round_trip::boxes_of(s).len() ==> round_trip::payload_of(
                #[trigger] round_trip::boxes_of(s)[k],
            ).len() < s.len(),
{
    let parts = round_trip::boxes_of(s);
    assert(round_trip::made_of(s, parts));
    assert forall|k: int| 0 <= k < parts.len() implies part_open(#[trigger] parts[k], edit)
        && round_trip::payload_of(parts[k]).len() < s.len() by {
        reveal(part_open);
        assert(round_trip::whole_box(parts[k]));
        assert(round_trip::boxes_of(s)[k] == parts[k]);
        round_trip::lemma_whole_box(parts[k]);
        round_trip::lemma_part_length(parts, k, parts.len());
    }
}

#[verifier::spinoff_prover]
#[verifier::rlimit(60)]
proof fn lemma_keyed_parts(r: Seq<u8>, new: Seq<Seq<u8>>, t: Target, key: Seq<u8>)
    requires
        kept::run_of(r, new),
        forall|k: int| 0 <= k < new.len() ==> part_keyed(#[trigger] new[k], t, key),
    ensures
        inside_keyed(r, t, key),
{
    round_trip::lemma_made_one_way(r, new);
    assert forall|k: int| #![trigger round_trip::boxes_of(r)[k]]
        0 <= k < round_trip::boxes_of(r).len() implies {
        let p = round_trip::boxes_of(r)[k];
        let body = round_trip::payload_of(p);
        &&& protection::holds_boxes(round_trip::type_of(p)) ==> body.len() < r.len()
            && inside_keyed(body, t, key)
        &&& round_trip::type_of(p) == box_type::STSD@ ==> stsd_keyed(body, t, key)
    } by {
        assert(part_keyed(new[k], t, key));
        reveal(part_keyed);
        round_trip::lemma_whole_box(new[k]);
        round_trip::lemma_part_length(new, k, new.len());
    }
}

#[verifier::spinoff_prover]
#[verifier::rlimit(60)]
proof fn lemma_part_keyed(p: Seq<u8>, edit: SampleEdit, kid: Seq<u8>, x: Seq<u8>)
    requires
        part_open(p, edit),
        kid.len() == 16,
        !(edit is Strip),
        kept::part_of(p, edit, kid) == Ok::<Seq<u8>, ErrorView>(x),
        x == p || x.len() <= u32::MAX,
        protection::holds_boxes(round_trip::type_of(p)) || round_trip::type_of(p)
            == box_type::STSD@ ==> x.len() <= u32::MAX,
    ensures
        part_keyed(x, found::target_of(edit), kid),
        round_trip::type_of(x) == round_trip::type_of(p),
    decreases p.len(), 0nat,
{
    let t = found::target_of(edit);
    let code = round_trip::type_of(p);
    assert(round_trip::whole_box(p) && p.len() <= u64::MAX && (edit is Rewrite ==> code
        != box_type::MDIA@)) by {
        reveal(part_open);
    }
    round_trip::lemma_whole_box(p);
    kept::lemma_not_inside();
    if init::descends(edit, code) {
        let body = round_trip::payload_of(p);
        assert(inside_open(body, edit)) by {
            reveal(part_open);
        }
        let c = kept::children_of(body, edit, kid)->Ok_0;
        assert(kept::children_of(body, edit, kid) is Ok && x == cmaf::boxed(code, c)) by {
            reveal(kept::part_of);
        }
        assert(x.len() == c.len() + 8);
        round_trip::boxed_reads_back(code, c);
        lemma_inside_keyed(body, edit, kid, c);
        reveal(part_keyed);
    } else if code == box_type::STSD@ {
        assert(kept::stsd_of(p, edit, kid) == Ok::<Seq<u8>, ErrorView>(x)) by {
            reveal(kept::part_of);
        }
        assert(stsd_open(round_trip::payload_of(p), edit)) by {
            reveal(part_open);
        }
        lemma_stsd_keyed(p, edit, kid, x);
        reveal(part_keyed);
    } else {
        assert(x == p) by {
            reveal(kept::part_of);
        }
        reveal(part_keyed);
    }
}

/// Every protected sample entry below an edited container has the key.
#[verifier::spinoff_prover]
#[verifier::rlimit(60)]
proof fn lemma_inside_keyed(s: Seq<u8>, edit: SampleEdit, kid: Seq<u8>, r: Seq<u8>)
    requires
        inside_open(s, edit),
        s.len() <= u64::MAX,
        kid.len() == 16,
        !(edit is Strip),
        kept::children_of(s, edit, kid) == Ok::<Seq<u8>, ErrorView>(r),
        r.len() <= u32::MAX,
    ensures
        inside_keyed(r, found::target_of(edit), kid),
    decreases s.len(), 1nat,
{
    let t = found::target_of(edit);
    let old = round_trip::boxes_of(s);
    let new = kept::made_parts(old, edit, kid);
    lemma_open_parts(s, edit);
    kept::lemma_children_made(s, old, 0, edit, kid, r);
    assert forall|k: int| 0 <= k < new.len() implies part_keyed(#[trigger] new[k], t, kid) by {
        assert(part_open(old[k], edit));
        assert(kept::part_of(old[k], edit, kid) is Ok);
        round_trip::lemma_part_length(old, k, old.len());
        round_trip::lemma_part_length(new, k, new.len());
        lemma_part_keyed(old[k], edit, kid, new[k]);
    }
    assert forall|k: int| 0 <= k < new.len() implies round_trip::whole_box(#[trigger] new[k]) by {
        assert(part_keyed(new[k], t, kid));
        reveal(part_keyed);
    }
    lemma_keyed_parts(r, new, t, kid);
}

// Tracks.

/// Whether the protection in a track can be told after an edit: a run of whole boxes whose media
/// boxes lead to sample descriptions that are fit for it.
pub open spec fn trak_open(s: Seq<u8>, edit: SampleEdit) -> bool {
    &&& edit is Inject ==> inside_open(s, edit)
    &&& edit is Rewrite ==> round_trip::whole_boxes(s) && forall|k: int|
        #![trigger round_trip::boxes_of(s)[k]]
        0 <= k < round_trip::boxes_of(s).len() ==> {
            let p = round_trip::boxes_of(s)[k];
            &&& round_trip::type_of(p) == box_type::MDIA@ ==> inside_open(
                round_trip::payload_of(p),
                edit,
            )
            &&& round_trip::type_of(p) != box_type::MINF@
            &&& round_trip::type_of(p) != box_type::STBL@
            &&& round_trip::type_of(p) != box_type::STSD@
        }
    &&& !(edit is Strip)
}

#[verifier::spinoff_prover]
#[verifier::rlimit(60)]
proof fn lemma_rewritten_part_keyed(p: Seq<u8>, t: Target, kid: Seq<u8>, x: Seq<u8>)
    requires
        round_trip::whole_box(p),
        p.len() <= u64::MAX,
        round_trip::type_of(p) == box_type::MDIA@ ==> inside_open(
            round_trip::payload_of(p),
            SampleEdit::Rewrite(t),
        ),
        round_trip::type_of(p) != box_type::MINF@,
        round_trip::type_of(p) != box_type::STBL@,
        round_trip::type_of(p) != box_type::STSD@,
        kid.len() == 16,
        kept::trak_part(p, t, kid) == Ok::<Seq<u8>, ErrorView>(x),
        round_trip::type_of(p) == box_type::MDIA@ ==> x.len() <= u32::MAX,
    ensures
        part_keyed(x, t, kid),
{
    let edit = SampleEdit::Rewrite(t);
    round_trip::lemma_whole_box(p);
    if round_trip::type_of(p) == box_type::MDIA@ {
        let body = round_trip::payload_of(p);
        let c = kept::children_of(body, edit, kid)->Ok_0;
        assert(kept::children_of(body, edit, kid) is Ok && x == cmaf::boxed(box_type::MDIA@, c)) by {
            reveal(kept::trak_part);
        }
        assert(x.len() == c.len() + 8);
        round_trip::boxed_reads_back(box_type::MDIA@, c);
        lemma_inside_keyed(body, edit, kid, c);
        kept::lemma_not_inside();
        reveal(part_keyed);
    } else {
        assert(x == p) by {
            reveal(kept::trak_part);
        }
        reveal(part_keyed);
    }
}

#[verifier::spinoff_prover]
#[verifier::rlimit(60)]
proof fn lemma_trak_keyed(
    s: Seq<u8>,
    edit: SampleEdit,
    mapping: Seq<(TrackType, Seq<u8>)>,
    x: Seq<u8>,
)
    requires
        trak_open(s, edit),
        s.len() <= u64::MAX,
        protection::full_keys(mapping),
        kept::trak_of(s, edit, mapping) == Ok::<Seq<u8>, ErrorView>(x),
        x.len() <= u32::MAX,
    ensures
        round_trip::whole_box(x),
        round_trip::type_of(x) == box_type::TRAK@,
        inside_keyed(
            round_trip::payload_of(x),
            found::target_of(edit),
            init::track_kid(s, mapping),
        ),
{
    let kid = init::track_kid(s, mapping);
    protection::lemma_track_kid(s, mapping);
    match edit {
        SampleEdit::Rewrite(t) => {
            let old = round_trip::boxes_of(s);
            let new = kept::made_trak(old, t, kid);
            assert(round_trip::made_of(s, old));
            kept::lemma_trak_of(s, t, mapping);
            let r = kept::trak_from(s, 0, t, kid, Seq::empty())->Ok_0;
            kept::lemma_trak_made(s, old, 0, t, kid, r);
            assert(x.len() == r.len() + 8);
            round_trip::boxed_reads_back(box_type::TRAK@, r);
            assert forall|k: int| 0 <= k < new.len() implies part_keyed(
                #[trigger] new[k],
                t,
                kid,
            ) by {
                assert(round_trip::boxes_of(s)[k] == old[k]);
                assert(round_trip::whole_box(old[k]));
                assert(kept::trak_part(old[k], t, kid) is Ok);
                round_trip::lemma_part_length(old, k, old.len());
                round_trip::lemma_part_length(new, k, new.len());
                lemma_rewritten_part_keyed(old[k], t, kid, new[k]);
            }
            assert forall|k: int| 0 <= k < new.len() implies round_trip::whole_box(
                #[trigger] new[k],
            ) by {
                assert(part_keyed(new[k], t, kid));
                reveal(part_keyed);
            }
            lemma_keyed_parts(r, new, t, kid);
        },
        SampleEdit::Inject(t) => {
            let r = kept::children_of(s, edit, kid)->Ok_0;
            assert(kept::children_of(s, edit, kid) is Ok && x == cmaf::boxed(box_type::TRAK@, r))
                by {
                reveal(kept::trak_of);
                reveal(kept::children_from);
            }
            assert(x.len() == r.len() + 8);
            round_trip::boxed_reads_back(box_type::TRAK@, r);
            lemma_inside_keyed(s, edit, kid, r);
        },
        SampleEdit::Strip => {},
    }
}

/// After an edit, every protected sample entry of a track has the key that the mapping has for
/// the type of track that the handler box names, and the scheme, IV size and pattern of the
/// target.
pub proof fn edited_track_has_the_key_of_its_type(
    trak: Seq<u8>,
    edit: SampleEdit,
    mapping: Seq<(TrackType, Seq<u8>)>,
    handler: Seq<u8>,
    kind: TrackType,
    key: Seq<u8>,
    x: Seq<u8>,
)
    requires
        trak_open(trak, edit),
        trak.len() <= u64::MAX,
        protection::full_keys(mapping),
        handled_by(trak, handler),
        handler_of(kind, handler),
        mapped_to(mapping, kind, key),
        init::edited_trak(trak, edit, mapping) == Ok::<Seq<u8>, ErrorView>(x),
        x.len() <= u32::MAX,
    ensures
        round_trip::whole_box(x),
        round_trip::type_of(x) == box_type::TRAK@,
        inside_keyed(round_trip::payload_of(x), found::target_of(edit), key),
{
    reveal(kept::trak_of);
    lemma_key(trak, handler, kind, mapping, key);
    lemma_trak_keyed(trak, edit, mapping, x);
}

// Init segments.

/// The boxes of a type among the first `n`.
pub open spec fn of_type(parts: Seq<Seq<u8>>, code: Seq<u8>, n: nat) -> Seq<Seq<u8>>
    decreases n,
{
    if n == 0 {
        Seq::empty()
    } else if round_trip::type_of(parts[n - 1]) == code {
        of_type(parts, code, (n - 1) as nat).push(parts[n - 1])
    } else {
        of_type(parts, code, (n - 1) as nat)
    }
}

/// Whether a track that was made of one has the key of its type: whichever type its handler box
/// names, and whichever key the mapping has for that type.
pub open spec fn track_keyed(
    old: Seq<u8>,
    new: Seq<u8>,
    t: Target,
    mapping: Seq<(TrackType, Seq<u8>)>,
) -> bool {
    forall|handler: Seq<u8>, kind: TrackType, key: Seq<u8>|
        #[trigger] handled_by(round_trip::payload_of(old), handler) && handler_of(kind, handler)
            && #[trigger] mapped_to(mapping, kind, key) ==> inside_keyed(
            round_trip::payload_of(new),
            t,
            key,
        )
}

/// Whether the tracks of a movie box are those of another, in order, each with the key of its
/// type.
pub open spec fn tracks_keyed(
    old: Seq<u8>,
    new: Seq<u8>,
    t: Target,
    mapping: Seq<(TrackType, Seq<u8>)>,
) -> bool {
    let from = round_trip::boxes_of(round_trip::payload_of(old));
    let to = round_trip::boxes_of(round_trip::payload_of(new));
    let a = of_type(from, box_type::TRAK@, from.len());
    let b = of_type(to, box_type::TRAK@, to.len());
    &&& a.len() == b.len()
    &&& forall|k: int| 0 <= k < a.len() ==> track_keyed(a[k], #[trigger] b[k], t, mapping)
}

/// All boxes of tracks.
spec fn tracks_of(parts: Seq<Seq<u8>>) -> Seq<Seq<u8>> {
    of_type(parts, box_type::TRAK@, parts.len())
}

proof fn lemma_of_same(a: Seq<Seq<u8>>, b: Seq<Seq<u8>>, code: Seq<u8>, n: nat)
    requires
        n <= a.len(),
        n <= b.len(),
        forall|k: int| 0 <= k < n ==> a[k] == b[k],
    ensures
        of_type(a, code, n) == of_type(b, code, n),
    decreases n,
{
    if n > 0 {
        lemma_of_same(a, b, code, (n - 1) as nat);
    }
}

proof fn lemma_of_both(a: Seq<Seq<u8>>, b: Seq<Seq<u8>>)
    ensures
        tracks_of(a + b) == tracks_of(a) + tracks_of(b),
    decreases b.len(),
{
    if b.len() == 0 {
        assert(a + b =~= a);
        assert(tracks_of(a) + tracks_of(b) =~= tracks_of(a));
    } else {
        let c = b.drop_last();
        lemma_of_both(a, c);
        lemma_of_same(a + b, a + c, box_type::TRAK@, (a + c).len());
        lemma_of_same(b, c, box_type::TRAK@, c.len());
        assert((a + b)[(a + b).len() - 1] == b.last());
        assert(tracks_of(a + b) =~= tracks_of(a) + tracks_of(b));
    }
}

proof fn lemma_of_one(p: Seq<u8>)
    ensures
        tracks_of(seq![p]) == if round_trip::type_of(p) == box_type::TRAK@ {
            seq![p]
        } else {
            Seq::empty()
        },
{
    let one = seq![p];
    assert(of_type(one, box_type::TRAK@, 0) == Seq::<Seq<u8>>::empty());
    assert(tracks_of(one) =~= if round_trip::type_of(p) == box_type::TRAK@ {
        seq![p]
    } else {
        Seq::empty()
    });
}

proof fn lemma_of_headers(headers: Seq<Seq<u8>>, n: nat)
    requires
        n <= headers.len(),
        kept::only_headers(headers),
    ensures
        of_type(headers, box_type::TRAK@, n) == Seq::<Seq<u8>>::empty(),
    decreases n,
{
    if n > 0 {
        lemma_of_headers(headers, (n - 1) as nat);
        assert(round_trip::type_of(headers[n - 1]) == box_type::PSSH@);
        assert(box_type::PSSH@[0] != box_type::TRAK@[0]);
    }
}

/// What an edit makes of a track.
spec fn made_track(p: Seq<u8>, edit: SampleEdit, mapping: Seq<(TrackType, Seq<u8>)>) -> Seq<u8> {
    kept::trak_of(round_trip::payload_of(p), edit, mapping)->Ok_0
}

/// Whether tracks were made of others by an edit, one of each.
spec fn made_of_tracks(
    a: Seq<Seq<u8>>,
    b: Seq<Seq<u8>>,
    edit: SampleEdit,
    mapping: Seq<(TrackType, Seq<u8>)>,
) -> bool {
    &&& a.len() == b.len()
    &&& forall|k: int| 0 <= k < a.len() ==> #[trigger] b[k] == made_track(a[k], edit, mapping)
}

proof fn lemma_made_both(
    a: Seq<Seq<u8>>,
    b: Seq<Seq<u8>>,
    c: Seq<Seq<u8>>,
    d: Seq<Seq<u8>>,
    edit: SampleEdit,
    mapping: Seq<(TrackType, Seq<u8>)>,
)
    requires
        made_of_tracks(a, b, edit, mapping),
        made_of_tracks(c, d, edit, mapping),
    ensures
        made_of_tracks(a + c, b + d, edit, mapping),
{
    assert forall|k: int| 0 <= k < (a + c).len() implies #[trigger] (b + d)[k] == made_track(
        (a + c)[k],
        edit,
        mapping,
    ) by {
        if k < a.len() {
            assert((b + d)[k] == b[k]);
        } else {
            assert((b + d)[k] == d[k - a.len()]);
        }
    }
}

/// Whether every track from `k` on is made into a track.
spec fn stay_tracks(
    parts: Seq<Seq<u8>>,
    k: int,
    edit: SampleEdit,
    mapping: Seq<(TrackType, Seq<u8>)>,
) -> bool {
    forall|i: int|
        k <= i < parts.len() && round_trip::type_of(#[trigger] parts[i]) == box_type::TRAK@
            ==> round_trip::whole_box(made_track(parts[i], edit, mapping)) && round_trip::type_of(
            made_track(parts[i], edit, mapping),
        ) == box_type::TRAK@
}

/// The tracks of a rewritten movie box.
#[verifier::spinoff_prover]
#[verifier::rlimit(60)]
proof fn lemma_rewritten_tracks(
    parts: Seq<Seq<u8>>,
    k: int,
    t: Target,
    mapping: Seq<(TrackType, Seq<u8>)>,
    headers: Seq<Seq<u8>>,
    wrote: bool,
)
    requires
        0 <= k <= parts.len(),
        kept::only_headers(headers),
        kept::all_whole(parts),
        stay_tracks(parts, k, SampleEdit::Rewrite(t), mapping),
    ensures
        made_of_tracks(
            tracks_of(parts.skip(k)),
            tracks_of(kept::moov_list(parts, k, t, mapping, headers, wrote)),
            SampleEdit::Rewrite(t),
            mapping,
        ),
        kept::all_whole(kept::moov_list(parts, k, t, mapping, headers, wrote)),
    decreases parts.len() - k,
{
    let edit = SampleEdit::Rewrite(t);
    let due = if wrote {
        Seq::empty()
    } else {
        headers
    };
    lemma_of_headers(headers, headers.len());
    assert(tracks_of(due) =~= Seq::empty());
    if k == parts.len() {
        assert(parts.skip(k) =~= Seq::empty());
    } else {
        let p = parts[k];
        let tail = parts.skip(k + 1);
        assert(parts.skip(k) =~= seq![p] + tail);
        lemma_of_both(seq![p], tail);
        lemma_of_one(p);
        assert(round_trip::whole_box(parts[k]));
        assert(kept::all_whole(due));
        if round_trip::type_of(p) == box_type::TRAK@ {
            let x = made_track(p, edit, mapping);
            let rest = kept::moov_list(parts, k + 1, t, mapping, headers, wrote);
            lemma_rewritten_tracks(parts, k + 1, t, mapping, headers, wrote);
            kept::lemma_all_whole(seq![x], rest);
            lemma_of_both(seq![x], rest);
            lemma_of_one(x);
            lemma_made_both(seq![p], seq![x], tracks_of(tail), tracks_of(rest), edit, mapping);
        } else if round_trip::type_of(p) == box_type::PSSH@ {
            let rest = kept::moov_list(parts, k + 1, t, mapping, headers, true);
            lemma_rewritten_tracks(parts, k + 1, t, mapping, headers, true);
            kept::lemma_all_whole(due, rest);
            lemma_of_both(due, rest);
            assert(tracks_of(due) + tracks_of(rest) =~= tracks_of(rest));
            assert(tracks_of(seq![p]) + tracks_of(tail) =~= tracks_of(tail));
        } else {
            let rest = kept::moov_list(parts, k + 1, t, mapping, headers, wrote);
            lemma_rewritten_tracks(parts, k + 1, t, mapping, headers, wrote);
            kept::lemma_all_whole(seq![p], rest);
            lemma_of_both(seq![p], rest);
            assert(tracks_of(seq![p]) + tracks_of(rest) =~= tracks_of(rest));
            assert(tracks_of(seq![p]) + tracks_of(tail) =~= tracks_of(tail));
        }
    }
}

/// The boxes of a movie box that gets protection, from `k` on.
spec fn inject_list(
    parts: Seq<Seq<u8>>,
    k: int,
    edit: SampleEdit,
    mapping: Seq<(TrackType, Seq<u8>)>,
    headers: Seq<Seq<u8>>,
) -> Seq<Seq<u8>>
    decreases parts.len() - k,
{
    if k < 0 || k >= parts.len() {
        headers
    } else if round_trip::type_of(parts[k]) == box_type::TRAK@ {
        seq![made_track(parts[k], edit, mapping)] + inject_list(parts, k + 1, edit, mapping, headers)
    } else {
        seq![parts[k]] + inject_list(parts, k + 1, edit, mapping, headers)
    }
}

#[verifier::rlimit(60)]
proof fn lemma_inject_step(
    s: Seq<u8>,
    parts: Seq<Seq<u8>>,
    k: int,
    t: Target,
    mapping: Seq<(TrackType, Seq<u8>)>,
    pssh: Seq<u8>,
    got: Seq<u8>,
)
    requires
        kept::run_of(s, parts),
        0 <= k <= parts.len(),
    ensures
        ({
            let edit = SampleEdit::Inject(t);
            kept::moov_from(s, k, edit, mapping, pssh, false, got) == if k == parts.len() {
                Ok(got + pssh)
            } else if round_trip::type_of(parts[k]) == box_type::TRAK@ {
                match kept::trak_of(round_trip::payload_of(parts[k]), edit, mapping) {
                    Ok(b) => kept::moov_from(s, k + 1, edit, mapping, pssh, false, got + b),
                    Err(e) => Err(e),
                }
            } else {
                kept::moov_from(s, k + 1, edit, mapping, pssh, false, got + parts[k])
            }
        }),
{
    reveal(kept::moov_from);
    reveal(kept::trak_of);
    round_trip::run_hands_out_every_box(s, parts);
    if k < parts.len() {
        assert(round_trip::stands_for(s, cmaf::run(s).headers[k], parts[k]));
    }
}

/// Whether every track from `k` on can be edited.
spec fn tracks_edited(
    parts: Seq<Seq<u8>>,
    k: int,
    edit: SampleEdit,
    mapping: Seq<(TrackType, Seq<u8>)>,
) -> bool {
    forall|i: int|
        k <= i < parts.len() && round_trip::type_of(#[trigger] parts[i]) == box_type::TRAK@
            ==> kept::trak_of(round_trip::payload_of(parts[i]), edit, mapping) is Ok
}

/// A movie box that got protection is made of its edited boxes and the headers.
#[verifier::spinoff_prover]
#[verifier::rlimit(60)]
proof fn lemma_inject_made(
    s: Seq<u8>,
    parts: Seq<Seq<u8>>,
    k: int,
    t: Target,
    mapping: Seq<(TrackType, Seq<u8>)>,
    headers: Seq<Seq<u8>>,
    got: Seq<u8>,
    r: Seq<u8>,
)
    requires
        kept::run_of(s, parts),
        0 <= k <= parts.len(),
        kept::moov_from(
            s,
            k,
            SampleEdit::Inject(t),
            mapping,
            cmaf::joined(headers, headers.len()),
            false,
            got,
        ) == Ok::<Seq<u8>, ErrorView>(r),
    ensures
        ({
            let list = inject_list(parts, k, SampleEdit::Inject(t), mapping, headers);
            &&& r == got + cmaf::joined(list, list.len())
            &&& tracks_edited(parts, k, SampleEdit::Inject(t), mapping)
        }),
    decreases parts.len() - k,
{
    let edit = SampleEdit::Inject(t);
    let pssh = cmaf::joined(headers, headers.len());
    lemma_inject_step(s, parts, k, t, mapping, pssh, got);
    if k < parts.len() {
        let rest = inject_list(parts, k + 1, edit, mapping, headers);
        let b = if round_trip::type_of(parts[k]) == box_type::TRAK@ {
            made_track(parts[k], edit, mapping)
        } else {
            parts[k]
        };
        lemma_inject_made(s, parts, k + 1, t, mapping, headers, got + b, r);
        kept::lemma_joined_both(seq![b], rest);
        kept::lemma_joined_one(b);
        assert(got + b + cmaf::joined(rest, rest.len()) =~= got + (b + cmaf::joined(
            rest,
            rest.len(),
        )));
    }
}

#[verifier::spinoff_prover]
#[verifier::rlimit(60)]
proof fn lemma_injected_tracks(
    parts: Seq<Seq<u8>>,
    k: int,
    edit: SampleEdit,
    mapping: Seq<(TrackType, Seq<u8>)>,
    headers: Seq<Seq<u8>>,
)
    requires
        0 <= k <= parts.len(),
        kept::only_headers(headers),
        kept::all_whole(parts),
        stay_tracks(parts, k, edit, mapping),
    ensures
        made_of_tracks(
            tracks_of(parts.skip(k)),
            tracks_of(inject_list(parts, k, edit, mapping, headers)),
            edit,
            mapping,
        ),
        kept::all_whole(inject_list(parts, k, edit, mapping, headers)),
    decreases parts.len() - k,
{
    if k == parts.len() {
        lemma_of_headers(headers, headers.len());
        assert(parts.skip(k) =~= Seq::empty());
    } else {
        let p = parts[k];
        let tail = parts.skip(k + 1);
        let rest = inject_list(parts, k + 1, edit, mapping, headers);
        assert(parts.skip(k) =~= seq![p] + tail);
        lemma_injected_tracks(parts, k + 1, edit, mapping, headers);
        lemma_of_both(seq![p], tail);
        lemma_of_one(p);
        assert(round_trip::whole_box(parts[k]));
        if round_trip::type_of(p) == box_type::TRAK@ {
            let x = made_track(p, edit, mapping);
            lemma_of_both(seq![x], rest);
            lemma_of_one(x);
            lemma_made_both(seq![p], seq![x], tracks_of(tail), tracks_of(rest), edit, mapping);
            kept::lemma_all_whole(seq![x], rest);
        } else {
            lemma_of_both(seq![p], rest);
            assert(tracks_of(seq![p]) + tracks_of(rest) =~= tracks_of(rest));
            assert(tracks_of(seq![p]) + tracks_of(tail) =~= tracks_of(tail));
            kept::lemma_all_whole(seq![p], rest);
        }
    }
}

/// The boxes that an edit makes of those of a movie box.
spec fn edited_list(
    parts: Seq<Seq<u8>>,
    edit: SampleEdit,
    mapping: Seq<(TrackType, Seq<u8>)>,
    headers: Seq<Seq<u8>>,
) -> Seq<Seq<u8>> {
    match edit {
        SampleEdit::Rewrite(t) => kept::moov_list(parts, 0, t, mapping, headers, false),
        _ => inject_list(parts, 0, edit, mapping, headers),
    }
}

proof fn lemma_in_rewritten(
    parts: Seq<Seq<u8>>,
    k: int,
    t: Target,
    mapping: Seq<(TrackType, Seq<u8>)>,
    headers: Seq<Seq<u8>>,
    wrote: bool,
    i: int,
)
    requires
        0 <= k <= i < parts.len(),
        round_trip::type_of(parts[i]) == box_type::TRAK@,
    ensures
        kept::moov_list(parts, k, t, mapping, headers, wrote).contains(
            made_track(parts[i], SampleEdit::Rewrite(t), mapping),
        ),
    decreases parts.len() - k,
{
    let x = made_track(parts[i], SampleEdit::Rewrite(t), mapping);
    let list = kept::moov_list(parts, k, t, mapping, headers, wrote);
    let due = if wrote {
        Seq::empty()
    } else {
        headers
    };
    if k == i {
        assert(list[0] == x);
    } else if round_trip::type_of(parts[k]) == box_type::TRAK@ {
        lemma_in_rewritten(parts, k + 1, t, mapping, headers, wrote, i);
        let rest = kept::moov_list(parts, k + 1, t, mapping, headers, wrote);
        let j = rest.index_of(x);
        assert(list[j + 1] == x);
    } else if round_trip::type_of(parts[k]) == box_type::PSSH@ {
        lemma_in_rewritten(parts, k + 1, t, mapping, headers, true, i);
        let rest = kept::moov_list(parts, k + 1, t, mapping, headers, true);
        let j = rest.index_of(x);
        assert(list[j + due.len()] == x);
    } else {
        lemma_in_rewritten(parts, k + 1, t, mapping, headers, wrote, i);
        let rest = kept::moov_list(parts, k + 1, t, mapping, headers, wrote);
        let j = rest.index_of(x);
        assert(list[j + 1] == x);
    }
}

proof fn lemma_in_injected(
    parts: Seq<Seq<u8>>,
    k: int,
    edit: SampleEdit,
    mapping: Seq<(TrackType, Seq<u8>)>,
    headers: Seq<Seq<u8>>,
    i: int,
)
    requires
        0 <= k <= i < parts.len(),
        round_trip::type_of(parts[i]) == box_type::TRAK@,
    ensures
        inject_list(parts, k, edit, mapping, headers).contains(
            made_track(parts[i], edit, mapping),
        ),
    decreases parts.len() - k,
{
    let x = made_track(parts[i], edit, mapping);
    let list = inject_list(parts, k, edit, mapping, headers);
    if k == i {
        assert(list[0] == x);
    } else {
        lemma_in_injected(parts, k + 1, edit, mapping, headers, i);
        let rest = inject_list(parts, k + 1, edit, mapping, headers);
        let j = rest.index_of(x);
        assert(list[j + 1] == x);
    }
}

proof fn lemma_injected_length(
    parts: Seq<Seq<u8>>,
    k: int,
    edit: SampleEdit,
    mapping: Seq<(TrackType, Seq<u8>)>,
    headers: Seq<Seq<u8>>,
)
    requires
        0 <= k <= parts.len(),
    ensures
        ({
            let list = inject_list(parts, k, edit, mapping, headers);
            cmaf::joined(headers, headers.len()).len() <= cmaf::joined(list, list.len()).len()
        }),
    decreases parts.len() - k,
{
    if k < parts.len() {
        let rest = inject_list(parts, k + 1, edit, mapping, headers);
        lemma_injected_length(parts, k + 1, edit, mapping, headers);
        kept::lemma_joined_both(seq![made_track(parts[k], edit, mapping)], rest);
        kept::lemma_joined_both(seq![parts[k]], rest);
    }
}

/// Whether the protection in the tracks of a movie box can be told after an edit.
pub open spec fn moov_open(s: Seq<u8>, edit: SampleEdit) -> bool {
    &&& round_trip::whole_boxes(s)
    &&& forall|k: int| #![trigger round_trip::boxes_of(s)[k]]
        0 <= k < round_trip::boxes_of(s).len() && round_trip::type_of(round_trip::boxes_of(s)[k])
            == box_type::TRAK@ ==> trak_open(
            round_trip::payload_of(round_trip::boxes_of(s)[k]),
            edit,
        )
}

/// The boxes of an edited movie box.
#[verifier::spinoff_prover]
#[verifier::rlimit(60)]
proof fn lemma_moov_parts(
    s: Seq<u8>,
    edit: SampleEdit,
    mapping: Seq<(TrackType, Seq<u8>)>,
    headers: Seq<Seq<u8>>,
    x: Seq<u8>,
)
    requires
        moov_open(s, edit),
        !(edit is Strip),
        s.len() <= u64::MAX,
        kept::moov_of(s, edit, mapping, cmaf::joined(headers, headers.len())) == Ok::<
            Seq<u8>,
            ErrorView,
        >(x),
        x.len() <= u32::MAX,
    ensures
        ({
            let parts = round_trip::boxes_of(s);
            let list = edited_list(parts, edit, mapping, headers);
            let r = cmaf::joined(list, list.len());
            &&& x == cmaf::boxed(box_type::MOOV@, r)
            &&& x.len() == r.len() + 8
            &&& tracks_edited(parts, 0, edit, mapping)
            &&& cmaf::joined(headers, headers.len()).len() <= r.len()
            &&& kept::run_of(s, parts)
        }),
{
    let parts = round_trip::boxes_of(s);
    let pssh = cmaf::joined(headers, headers.len());
    let none = Seq::<u8>::empty();
    assert(round_trip::made_of(s, parts));
    kept::lemma_moov_of(s, edit, mapping, pssh);
    let r = kept::moov_from(s, 0, edit, mapping, pssh, false, none)->Ok_0;
    match edit {
        SampleEdit::Rewrite(t) => {
            kept::lemma_moov_made(s, parts, 0, t, mapping, headers, false, none, r);
            kept::lemma_list_length(parts, 0, t, mapping, headers);
        },
        SampleEdit::Inject(t) => {
            lemma_inject_made(s, parts, 0, t, mapping, headers, none, r);
            lemma_injected_length(parts, 0, edit, mapping, headers);
        },
        SampleEdit::Strip => {},
    }
    let list = edited_list(parts, edit, mapping, headers);
    assert(none + cmaf::joined(list, list.len()) =~= cmaf::joined(list, list.len()));
}

/// The tracks of an edited movie box.
#[verifier::spinoff_prover]
#[verifier::rlimit(60)]
proof fn lemma_tracks_stay(
    s: Seq<u8>,
    edit: SampleEdit,
    mapping: Seq<(TrackType, Seq<u8>)>,
    headers: Seq<Seq<u8>>,
    i: int,
)
    requires
        moov_open(s, edit),
        !(edit is Strip),
        s.len() <= u64::MAX,
        protection::full_keys(mapping),
        tracks_edited(round_trip::boxes_of(s), 0, edit, mapping),
        ({
            let list = edited_list(round_trip::boxes_of(s), edit, mapping, headers);
            cmaf::joined(list, list.len()).len() <= u32::MAX
        }),
        0 <= i < round_trip::boxes_of(s).len(),
        round_trip::type_of(round_trip::boxes_of(s)[i]) == box_type::TRAK@,
    ensures
        ({
            let p = round_trip::boxes_of(s)[i];
            let x = made_track(p, edit, mapping);
            &&& round_trip::whole_box(x)
            &&& round_trip::type_of(x) == box_type::TRAK@
            &&& inside_keyed(
                round_trip::payload_of(x),
                found::target_of(edit),
                init::track_kid(round_trip::payload_of(p), mapping),
            )
            &&& round_trip::payload_of(p).len() <= u64::MAX
        }),
{
    let parts = round_trip::boxes_of(s);
    let p = parts[i];
    let x = made_track(p, edit, mapping);
    let list = edited_list(parts, edit, mapping, headers);
    match edit {
        SampleEdit::Rewrite(t) => {
            lemma_in_rewritten(parts, 0, t, mapping, headers, false, i);
        },
        _ => {
            lemma_in_injected(parts, 0, edit, mapping, headers, i);
        },
    }
    let j = list.index_of(x);
    round_trip::lemma_part_length(list, j, list.len());
    kept::lemma_box_length(s, i);
    assert(trak_open(round_trip::payload_of(round_trip::boxes_of(s)[i]), edit));
    lemma_trak_keyed(round_trip::payload_of(p), edit, mapping, x);
}

proof fn lemma_among(parts: Seq<Seq<u8>>, n: nat, k: int) -> (i: int)
    requires
        n <= parts.len(),
        0 <= k < of_type(parts, box_type::TRAK@, n).len(),
    ensures
        0 <= i < n,
        parts[i] == of_type(parts, box_type::TRAK@, n)[k],
        round_trip::type_of(parts[i]) == box_type::TRAK@,
    decreases n,
{
    let before = of_type(parts, box_type::TRAK@, (n - 1) as nat);
    if k < before.len() {
        lemma_among(parts, (n - 1) as nat, k)
    } else {
        n - 1
    }
}

/// The tracks of an edited movie box have the keys of their types.
#[verifier::spinoff_prover]
#[verifier::rlimit(60)]
proof fn lemma_moov_keyed(
    p: Seq<u8>,
    edit: SampleEdit,
    mapping: Seq<(TrackType, Seq<u8>)>,
    headers: Seq<Seq<u8>>,
    x: Seq<u8>,
)
    requires
        moov_open(round_trip::payload_of(p), edit),
        !(edit is Strip),
        round_trip::payload_of(p).len() <= u64::MAX,
        protection::full_keys(mapping),
        kept::only_headers(headers),
        kept::moov_of(
            round_trip::payload_of(p),
            edit,
            mapping,
            cmaf::joined(headers, headers.len()),
        ) == Ok::<Seq<u8>, ErrorView>(x),
        x.len() <= u32::MAX,
    ensures
        round_trip::whole_box(x),
        round_trip::type_of(x) == box_type::MOOV@,
        tracks_keyed(p, x, found::target_of(edit), mapping),
{
    let s = round_trip::payload_of(p);
    let t = found::target_of(edit);
    let parts = round_trip::boxes_of(s);
    let list = edited_list(parts, edit, mapping, headers);
    let r = cmaf::joined(list, list.len());
    lemma_moov_parts(s, edit, mapping, headers, x);
    round_trip::boxed_reads_back(box_type::MOOV@, r);
    assert forall|i: int|
        0 <= i < parts.len() && round_trip::type_of(#[trigger] parts[i])
            == box_type::TRAK@ implies round_trip::whole_box(made_track(parts[i], edit, mapping))
        && round_trip::type_of(made_track(parts[i], edit, mapping)) == box_type::TRAK@ by {
        lemma_tracks_stay(s, edit, mapping, headers, i);
    }
    assert(kept::all_whole(parts));
    assert(parts.skip(0) =~= parts);
    match edit {
        SampleEdit::Rewrite(target) => {
            lemma_rewritten_tracks(parts, 0, target, mapping, headers, false);
        },
        _ => {
            lemma_injected_tracks(parts, 0, edit, mapping, headers);
        },
    }
    assert(round_trip::made_of(r, list));
    round_trip::lemma_made_one_way(r, list);
    let a = tracks_of(parts);
    let b = tracks_of(list);
    assert(made_of_tracks(a, b, edit, mapping));
    assert forall|k: int| 0 <= k < a.len() implies track_keyed(a[k], #[trigger] b[k], t, mapping) by {
        let i = lemma_among(parts, parts.len(), k);
        lemma_tracks_stay(s, edit, mapping, headers, i);
        assert(b[k] == made_track(a[k], edit, mapping));
        assert forall|handler: Seq<u8>, kind: TrackType, key: Seq<u8>|
            #[trigger] handled_by(round_trip::payload_of(a[k]), handler) && handler_of(
                kind,
                handler,
            ) && #[trigger] mapped_to(mapping, kind, key) implies inside_keyed(
            round_trip::payload_of(b[k]),
            t,
            key,
        ) by {
            lemma_key(round_trip::payload_of(a[k]), handler, kind, mapping, key);
        }
    }
}

/// Whether the protection in an init segment can be told after an edit.
pub open spec fn init_open(s: Seq<u8>, edit: SampleEdit) -> bool {
    &&& round_trip::whole_boxes(s)
    &&& forall|k: int| #![trigger round_trip::boxes_of(s)[k]]
        0 <= k < round_trip::boxes_of(s).len() && round_trip::type_of(round_trip::boxes_of(s)[k])
            == box_type::MOOV@ ==> moov_open(
            round_trip::payload_of(round_trip::boxes_of(s)[k]),
            edit,
        )
}

#[verifier::rlimit(60)]
proof fn lemma_moov_at(
    s: Seq<u8>,
    k: int,
    edit: SampleEdit,
    mapping: Seq<(TrackType, Seq<u8>)>,
    pssh: Seq<u8>,
    ftyp: Seq<u8>,
    x: Seq<u8>,
)
    requires
        init_open(s, edit),
        0 <= k < round_trip::boxes_of(s).len(),
        protection::moov_fits(s, edit, mapping, pssh),
        kept::top_of(round_trip::boxes_of(s)[k], edit, mapping, pssh, ftyp) == Ok::<
            Seq<u8>,
            ErrorView,
        >(x),
    ensures
        round_trip::type_of(round_trip::boxes_of(s)[k]) == box_type::MOOV@ ==> x.len() <= u32::MAX
            && moov_open(round_trip::payload_of(round_trip::boxes_of(s)[k]), edit)
            && kept::moov_of(round_trip::payload_of(round_trip::boxes_of(s)[k]), edit, mapping, pssh)
            == Ok::<Seq<u8>, ErrorView>(x),
{
    reveal(protection::moov_sized);
    reveal(kept::moov_of);
    assert(box_type::FTYP@[0] != box_type::MOOV@[0]);
}

/// A box of an edited init segment.
#[verifier::spinoff_prover]
#[verifier::rlimit(60)]
proof fn lemma_top_keyed(
    s: Seq<u8>,
    k: int,
    edit: SampleEdit,
    systems: Seq<SystemView>,
    mapping: Seq<(TrackType, Seq<u8>)>,
    format: ContainerFormat,
    x: Seq<u8>,
)
    requires
        init_open(s, edit),
        s.len() <= u64::MAX,
        !(edit is Strip),
        protection::full_keys(mapping),
        0 <= k < round_trip::boxes_of(s).len(),
        protection::moov_fits(
            s,
            edit,
            mapping,
            init::pssh_boxes(systems, mapping, found::target_of(edit).scheme),
        ),
        kept::top_of(
            round_trip::boxes_of(s)[k],
            edit,
            mapping,
            init::pssh_boxes(systems, mapping, found::target_of(edit).scheme),
            format.ftyp(),
        ) == Ok::<Seq<u8>, ErrorView>(x),
    ensures
        round_trip::whole_box(x),
        round_trip::type_of(round_trip::boxes_of(s)[k]) == box_type::MOOV@ ==> round_trip::type_of(
            x,
        ) == box_type::MOOV@ && tracks_keyed(
            round_trip::boxes_of(s)[k],
            x,
            found::target_of(edit),
            mapping,
        ),
{
    let p = round_trip::boxes_of(s)[k];
    let t = found::target_of(edit);
    let pssh = init::pssh_boxes(systems, mapping, t.scheme);
    assert(box_type::FTYP@[0] != box_type::MOOV@[0]);
    kept::lemma_box_length(s, k);
    lemma_moov_at(s, k, edit, mapping, pssh, format.ftyp(), x);
    if round_trip::type_of(p) == box_type::FTYP@ {
        protection::lemma_ftyp_box(format);
    } else if round_trip::type_of(p) == box_type::MOOV@ {
        let headers = protection::pssh_parts(systems, mapping, t);
        let groups = init::system_groups(systems, t.scheme, systems.len());
        protection::lemma_pssh_parts(groups, mapping, headers, groups.len());
        lemma_moov_parts(round_trip::payload_of(p), edit, mapping, headers, x);
        protection::lemma_pssh_whole(systems, mapping, t);
        assert(kept::only_headers(headers));
        lemma_moov_keyed(p, edit, mapping, headers, x);
    }
}

/// After protection was added to an init segment, or pointed at another scheme, every protected
/// sample entry of every track has the key that the mapping has for the type of track that the
/// handler box of the track names, video, audio or subtitles, and the scheme, IV size and pattern
/// of the target.
#[verifier::spinoff_prover]
#[verifier::rlimit(60)]
pub proof fn edited_tracks_have_the_keys_of_their_types(
    s: Seq<u8>,
    edit: SampleEdit,
    systems: Seq<SystemView>,
    mapping: Seq<(TrackType, Seq<u8>)>,
    format: ContainerFormat,
    out: Seq<u8>,
)
    requires
        !(edit is Strip),
        init_open(s, edit),
        s.len() <= u64::MAX,
        protection::full_keys(mapping),
        init::edited_init(s, edit, systems, mapping, format) == Ok::<Seq<u8>, ErrorView>(out),
        out.len() <= u64::MAX,
        protection::moov_fits(
            s,
            edit,
            mapping,
            init::pssh_boxes(systems, mapping, found::target_of(edit).scheme),
        ),
    ensures
        round_trip::whole_boxes(out),
        round_trip::boxes_of(out).len() == round_trip::boxes_of(s).len(),
        forall|k: int|
            0 <= k < round_trip::boxes_of(s).len() && round_trip::type_of(
                round_trip::boxes_of(s)[k],
            ) == box_type::MOOV@ ==> round_trip::type_of(#[trigger] round_trip::boxes_of(out)[k])
                == box_type::MOOV@ && tracks_keyed(
                round_trip::boxes_of(s)[k],
                round_trip::boxes_of(out)[k],
                found::target_of(edit),
                mapping,
            ),
{
    let t = found::target_of(edit);
    let pssh = init::pssh_boxes(systems, mapping, t.scheme);
    let old = round_trip::boxes_of(s);
    let new = kept::made_tops(old, edit, mapping, pssh, format.ftyp());
    assert(round_trip::made_of(s, old));
    assert(kept::init_from(s, 0, edit, mapping, pssh, format.ftyp(), Seq::empty()) == Ok::<
        Seq<u8>,
        ErrorView,
    >(out)) by {
        reveal(kept::init_from);
    }
    kept::lemma_init_made(s, old, 0, edit, mapping, pssh, format.ftyp(), out);
    assert forall|k: int| 0 <= k < new.len() implies round_trip::whole_box(#[trigger] new[k]) && (
    round_trip::type_of(old[k]) == box_type::MOOV@ ==> round_trip::type_of(new[k])
        == box_type::MOOV@ && tracks_keyed(old[k], new[k], t, mapping)) by {
        assert(kept::top_of(old[k], edit, mapping, pssh, format.ftyp()) is Ok);
        lemma_top_keyed(s, k, edit, systems, mapping, format, new[k]);
    }
    assert(kept::run_of(out, new));
    round_trip::lemma_made_one_way(out, new);
}

} // verus!
