//! The protection that an init segment has after an edit is the one that is found in it.

use crate::bytes;
use crate::drm::SystemView;
use crate::error::ErrorView;
use crate::media::box_type;
use crate::media::cmaf;
use crate::media::cmaf::{BoxHeader, ProtectionView};
use crate::media::container::ContainerFormat;
use crate::media::init;
use crate::media::init::{SampleEdit, Target};
use crate::media::protection;
use crate::media::round_trip;
use crate::media::TrackType;
use vstd::prelude::*;

verus! {

// Bytes that do not spell the type of a sinf box.

/// Whether the bytes `sinf` stand at `i`.
pub open spec fn marked_at(s: Seq<u8>, i: int) -> bool {
    &&& 0 <= i
    &&& i + 4 <= s.len()
    &&& s[i] == 0x73
    &&& s[i + 1] == 0x69
    &&& s[i + 2] == 0x6e
    &&& s[i + 3] == 0x66
}

/// Whether the bytes `sinf` stand nowhere in `s`.
#[verifier::opaque]
pub open spec fn unmarked(s: Seq<u8>) -> bool {
    forall|i: int| !(#[trigger] marked_at(s, i))
}

/// Whether bytes do not begin with `sinf` or with the end of it.
pub open spec fn plain_start(b: Seq<u8>) -> bool {
    &&& !marked_at(b, 0)
    &&& !(b.len() >= 1 && b[0] == 0x66)
    &&& !(b.len() >= 2 && b[0] == 0x6e && b[1] == 0x66)
    &&& !(b.len() >= 3 && b[0] == 0x69 && b[1] == 0x6e && b[2] == 0x66)
}

/// Whether a size can be said by a size field that spells neither `sinf` nor the end of it.
pub open spec fn plain_size(n: nat) -> bool {
    n <= u32::MAX && plain_start(bytes::bytes32(n as u32))
}

/// What does not begin with the end of `sinf` makes no `sinf` with what is before it.
#[verifier::rlimit(60)]
proof fn lemma_apart(a: Seq<u8>, x: Seq<u8>, n: int)
    requires
        unmarked(a),
        0 <= n <= x.len(),
        unmarked(x.take(n)),
        plain_start(x),
    ensures
        unmarked(a + x.take(n)),
{
    reveal(unmarked);
    let b = x.take(n);
    let s = a + b;
    let m = a.len() as int;
    assert forall|i: int| !(#[trigger] marked_at(s, i)) by {
        if marked_at(s, i) {
            if i + 4 <= m {
                assert(marked_at(a, i));
            } else if i >= m {
                assert(marked_at(b, i - m));
            } else {
                assert(s[m] == x[0]);
                if i < m - 1 {
                    assert(i == m - 2 || i == m - 3);
                    if i == m - 2 {
                        assert(s[m + 1] == x[1]);
                    }
                } else {
                    assert(s[m + 1] == x[1] && s[m + 2] == x[2]);
                }
            }
        }
    }
}

/// The same of the whole.
proof fn lemma_apart_all(a: Seq<u8>, x: Seq<u8>)
    requires
        unmarked(a),
        unmarked(x),
        plain_start(x),
    ensures
        unmarked(a + x),
{
    assert(x.take(x.len() as int) =~= x);
    lemma_apart(a, x, x.len() as int);
}

/// What stands in unmarked bytes is unmarked.
pub proof fn lemma_part_unmarked(s: Seq<u8>, i: int, j: int)
    requires
        unmarked(s),
        0 <= i <= j <= s.len(),
    ensures
        unmarked(s.subrange(i, j)),
{
    reveal(unmarked);
    let p = s.subrange(i, j);
    assert forall|k: int| !(#[trigger] marked_at(p, k)) by {
        if marked_at(p, k) {
            assert(marked_at(s, i + k));
        }
    }
}

/// Whether a type can stand behind any size field without making the bytes `sinf`.
pub open spec fn quiet_code(code: Seq<u8>) -> bool {
    code.len() == 4 && code[0] != 0x66 && code[0] != 0x6e && code[0] != 0x69
}

/// A size field in front of bytes makes no `sinf` of them.
#[verifier::rlimit(60)]
proof fn lemma_size_in_front(size: Seq<u8>, code: Seq<u8>, rest: Seq<u8>)
    requires
        size.len() == 4,
        plain_start(size),
        quiet_code(code),
        unmarked(code + rest),
    ensures
        unmarked(size + code + rest),
{
    reveal(unmarked);
    let b = code + rest;
    let s = size + code + rest;
    assert(s =~= size + b);
    assert forall|i: int| !(#[trigger] marked_at(s, i)) by {
        if marked_at(s, i) {
            if i >= 4 {
                assert(marked_at(b, i - 4));
            } else {
                assert(s[4] == code[0]);
                if i == 0 {
                    assert(marked_at(size, 0)) by {
                        assert(s[0] == size[0] && s[1] == size[1] && s[2] == size[2] && s[3]
                            == size[3]);
                    }
                }
            }
        }
    }
}

/// The types of the boxes around sample entries, and of protected entries.
pub open spec fn known_code(code: Seq<u8>) -> bool {
    ||| code == box_type::MOOV@
    ||| code == box_type::TRAK@
    ||| code == box_type::MDIA@
    ||| code == box_type::MINF@
    ||| code == box_type::STBL@
    ||| code == box_type::STSD@
    ||| code == init::encv()
    ||| code == init::enca()
}

#[verifier::rlimit(60)]
proof fn lemma_known_code(code: Seq<u8>, rest: Seq<u8>)
    requires
        known_code(code),
        unmarked(rest),
    ensures
        quiet_code(code),
        unmarked(code + rest),
{
    reveal(unmarked);
    let s = code + rest;
    assert forall|i: int| !(#[trigger] marked_at(s, i)) by {
        if marked_at(s, i) {
            if i >= 4 {
                assert(marked_at(rest, i - 4));
            } else {
                assert(s[i] == code[i]);
                if i < 3 {
                    assert(s[i + 1] == code[i + 1]);
                }
            }
        }
    }
}

proof fn lemma_nothing_unmarked()
    ensures
        unmarked(Seq::<u8>::empty()),
{
    reveal(unmarked);
}

// Bytes that lead to a sinf box.

/// The sinf box that protects samples of a format.
#[verifier::opaque]
pub open spec fn sinf_for(format: Seq<u8>, t: Target, kid: Seq<u8>) -> Seq<u8> {
    init::sinf_box(format, t, kid)
}

/// Whether the first sinf box in `x` stands at `n`, behind unmarked bytes.
pub open spec fn leads_at(x: Seq<u8>, n: int, sinf: Seq<u8>) -> bool {
    &&& 0 <= n
    &&& n + sinf.len() <= x.len()
    &&& unmarked(x.take(n))
    &&& x.subrange(n, n + sinf.len()) == sinf
}

/// Whether unmarked bytes and then `sinf` begin `x`.
pub open spec fn leads_to(x: Seq<u8>, sinf: Seq<u8>) -> bool {
    exists|n: int| leads_at(x, n, sinf)
}

proof fn lemma_lead_behind(a: Seq<u8>, x: Seq<u8>, rest: Seq<u8>, sinf: Seq<u8>)
    requires
        unmarked(a),
        leads_to(x, sinf),
        plain_start(x),
    ensures
        leads_to(a + x + rest, sinf),
{
    let n = choose|n: int| leads_at(x, n, sinf);
    let s = a + x + rest;
    let m = a.len() + n;
    assert(s.take(m) =~= a + x.take(n));
    lemma_apart(a, x, n);
    assert(s.subrange(m, m + sinf.len()) =~= x.subrange(n, n + sinf.len()));
    assert(leads_at(s, m, sinf));
}

/// A box starts with its size.
pub proof fn lemma_box_starts(code: Seq<u8>, body: Seq<u8>)
    requires
        plain_size(cmaf::boxed(code, body).len()),
    ensures
        cmaf::boxed(code, body).len() == code.len() + body.len() + 4,
        code.len() == 4 ==> plain_start(cmaf::boxed(code, body)),
{
    let x = cmaf::boxed(code, body);
    let size = bytes::bytes32((body.len() + 8) as u32);
    assert(x[0] == size[0] && x[1] == size[1] && x[2] == size[2] && x[3] == size[3]);
}

#[verifier::rlimit(60)]
proof fn lemma_lead_boxed_with(code: Seq<u8>, body: Seq<u8>, n: int, sinf: Seq<u8>)
    requires
        quiet_code(code),
        leads_at(body, n, sinf),
        unmarked(code + body.take(n)),
        plain_size(cmaf::boxed(code, body).len()),
    ensures
        leads_to(cmaf::boxed(code, body), sinf),
        plain_start(cmaf::boxed(code, body)),
        cmaf::boxed(code, body).len() == body.len() + 8,
{
    let size = bytes::bytes32((body.len() + 8) as u32);
    let x = cmaf::boxed(code, body);
    assert(x.len() == body.len() + 8);
    lemma_box_starts(code, body);
    lemma_size_in_front(size, code, body.take(n));
    assert(x.take(n + 8) =~= size + code + body.take(n));
    assert(x.subrange(n + 8, n + 8 + sinf.len()) =~= body.subrange(n, n + sinf.len()));
    assert(leads_at(x, n + 8, sinf));
}

/// What leads to a sinf box still does in a box around it.
proof fn lemma_lead_boxed(code: Seq<u8>, body: Seq<u8>, sinf: Seq<u8>)
    requires
        known_code(code),
        leads_to(body, sinf),
        plain_size(cmaf::boxed(code, body).len()),
    ensures
        leads_to(cmaf::boxed(code, body), sinf),
        plain_start(cmaf::boxed(code, body)),
        cmaf::boxed(code, body).len() == body.len() + 8,
{
    let n = choose|n: int| leads_at(body, n, sinf);
    lemma_known_code(code, body.take(n));
    lemma_lead_boxed_with(code, body, n, sinf);
}

/// The sinf box behind unmarked bytes is the first that is found.
#[verifier::rlimit(60)]
proof fn lemma_first_place(s: Seq<u8>, n: int, sinf: Seq<u8>)
    requires
        leads_at(s, n, sinf),
        sinf.len() >= 8,
        sinf[0] == 0 && sinf[1] == 0 && sinf[2] == 0 && sinf[3] == 79,
        init::sinf_starts(s, n, 8),
    ensures
        init::find_sinf(s, 0) == Some(n),
{
    reveal(unmarked);
    let x = s.subrange(n, n + sinf.len());
    assert(s[n] == x[0] && s[n + 1] == x[1] && s[n + 2] == x[2] && s[n + 3] == x[3]);
    assert forall|i: int| 0 <= i < n implies !(#[trigger] init::sinf_starts(s, i, 8)) by {
        if init::sinf_starts(s, i, 8) {
            let code = s.subrange(i + 4, i + 8);
            assert(code[0] == s[i + 4] && code[1] == s[i + 5] && code[2] == s[i + 6] && code[3]
                == s[i + 7]);
            if i + 8 <= n {
                assert(marked_at(s.take(n), i + 4));
            }
        }
    }
    lemma_first_found(s, 0, n);
}

/// The protection behind unmarked bytes is the one that is found.
pub proof fn lemma_led_to_is_found(s: Seq<u8>, format: Seq<u8>, t: Target, kid: Seq<u8>)
    requires
        leads_to(s, sinf_for(format, t, kid)),
        format.len() == 4,
        kid.len() == 16,
    ensures
        init::protection_of(s) == Ok::<Option<ProtectionView>, ErrorView>(
            Some(protection::sinf_info(format, t, kid)),
        ),
{
    reveal(sinf_for);
    let sinf = init::sinf_box(format, t, kid);
    let n = choose|n: int| leads_at(s, n, sinf);
    lemma_led_at_is_found(s, n, sinf, format, t, kid);
}

#[verifier::spinoff_prover]
#[verifier::rlimit(60)]
proof fn lemma_led_at_is_found(
    s: Seq<u8>,
    n: int,
    sinf: Seq<u8>,
    format: Seq<u8>,
    t: Target,
    kid: Seq<u8>,
)
    requires
        leads_at(s, n, sinf),
        sinf == init::sinf_box(format, t, kid),
        format.len() == 4,
        kid.len() == 16,
    ensures
        init::protection_of(s) == Ok::<Option<ProtectionView>, ErrorView>(
            Some(protection::sinf_info(format, t, kid)),
        ),
{
    let before = s.take(n);
    let after = s.skip((n + sinf.len()) as int);
    lemma_cut(s, n, sinf);
    protection::lemma_sinf_starts(before, format, t, kid, after);
    lemma_first_place(s, n, sinf);
    protection::lemma_found_protection(before, format, t, kid, after);
}

proof fn lemma_cut(s: Seq<u8>, n: int, x: Seq<u8>)
    requires
        0 <= n,
        n + x.len() <= s.len(),
        s.subrange(n, n + x.len()) == x,
    ensures
        s == s.take(n) + x + s.skip((n + x.len()) as int),
{
    assert(s =~= s.take(n) + s.subrange(n, n + x.len()) + s.skip((n + x.len()) as int));
}

proof fn lemma_first_found(s: Seq<u8>, i: int, n: int)
    requires
        0 <= i <= n,
        n + 8 <= s.len(),
        init::sinf_starts(s, n, 8),
        forall|k: int| 0 <= k < n ==> !(#[trigger] init::sinf_starts(s, k, 8)),
    ensures
        init::find_sinf(s, i) == Some(n),
    decreases n - i,
{
    if i < n {
        assert(!init::sinf_starts(s, i, 8));
        lemma_first_found(s, i + 1, n);
    }
}

// Sample entries.

/// Whether a sample entry is protected: unmarked bytes, a sinf box with `info` in it for
/// samples of a format, and whatever follows. The size field of the sinf box is a plain one.
pub open spec fn entry_protects(
    q: Seq<u8>,
    format: Seq<u8>,
    before: Seq<u8>,
    info: Seq<u8>,
    after: Seq<u8>,
) -> bool {
    &&& round_trip::whole_box(q)
    &&& init::is_encrypted_code(round_trip::type_of(q))
    &&& round_trip::payload_of(q) == before + cmaf::boxed(box_type::SINF@, info) + after
    &&& unmarked(round_trip::type_of(q) + before)
    &&& plain_size(info.len() + 8)
    &&& protection::protects(info, format)
}

/// Whether an edit leaves the protection of samples of a format in a sample entry: a clear
/// entry of that format gets it, one that has protection for it keeps it.
pub open spec fn entry_ready(q: Seq<u8>, edit: SampleEdit, format: Seq<u8>) -> bool {
    match edit {
        SampleEdit::Inject(_) => {
            &&& round_trip::whole_box(q)
            &&& round_trip::type_of(q) == format
            &&& init::encrypted_code(format) is Some
            &&& unmarked(round_trip::payload_of(q))
        },
        SampleEdit::Rewrite(_) => exists|before: Seq<u8>, info: Seq<u8>, after: Seq<u8>|
            entry_protects(q, format, before, info, after),
        SampleEdit::Strip => false,
    }
}

/// The protection that an edit is for.
pub open spec fn target_of(edit: SampleEdit) -> Target {
    match edit {
        SampleEdit::Inject(t) => t,
        SampleEdit::Rewrite(t) => t,
        SampleEdit::Strip => arbitrary(),
    }
}

#[verifier::rlimit(60)]
proof fn lemma_injected_entry_leads(
    p: Seq<u8>,
    h: BoxHeader,
    q: Seq<u8>,
    t: Target,
    kid: Seq<u8>,
    e: Seq<u8>,
)
    requires
        round_trip::stands_for(p, h, q),
        init::encrypted_code(round_trip::type_of(q)) is Some,
        unmarked(round_trip::payload_of(q)),
        init::edited_entry(p, h, SampleEdit::Inject(t), kid) == Ok::<Seq<u8>, ErrorView>(e),
        plain_size(e.len()),
    ensures
        leads_to(e, init::sinf_box(round_trip::type_of(q), t, kid)),
        plain_start(e),
{
    let body = round_trip::payload_of(q);
    let sinf = init::sinf_box(round_trip::type_of(q), t, kid);
    let code = init::encrypted_code(round_trip::type_of(q))->0;
    let x = body + sinf;
    assert(x.take(body.len() as int) =~= body);
    assert(x.subrange(body.len() as int, (body.len() + sinf.len()) as int) =~= sinf);
    assert(leads_at(x, body.len() as int, sinf));
    lemma_lead_boxed(code, x, sinf);
}

#[verifier::rlimit(60)]
proof fn lemma_entry_extends(p: Seq<u8>, pos: int, kid: Seq<u8>, t: Target, got: Seq<u8>)
    ensures
        init::entry_rewritten(p, pos, kid, t, got) matches Ok(r) ==> got.is_prefix_of(r),
    decreases p.len() - pos,
{
    if pos < 0 || pos + 8 > p.len() {
    } else if init::sinf_starts(p, pos, 1) {
        let size = bytes::be32(p, pos);
        let sinf = p.subrange(pos, pos + size);
        if let Ok(h) = cmaf::header_at(sinf, 0) {
            if let Ok(b) = init::sinf_rewritten(
                bytes::clamped(sinf, h.header_size as int, size as int),
                kid,
                t,
            ) {
                lemma_entry_extends(p, pos + size, kid, t, got + b);
            }
        }
    } else {
        lemma_entry_extends(p, pos + 1, kid, t, got.push(p[pos]));
    }
}

/// In front of the first sinf box no other one starts.
#[verifier::rlimit(60)]
pub proof fn lemma_none_before(before: Seq<u8>, sinf: Seq<u8>, after: Seq<u8>, pos: int)
    requires
        unmarked(before),
        sinf.len() >= 8,
        plain_start(sinf),
        sinf[4] == 0x73,
        0 <= pos < before.len(),
    ensures
        !init::sinf_starts(before + sinf + after, pos, 1),
{
    reveal(unmarked);
    let p = before + sinf + after;
    if init::sinf_starts(p, pos, 1) {
        let code = p.subrange(pos + 4, pos + 8);
        let n = before.len() as int;
        assert(code[0] == p[pos + 4] && code[1] == p[pos + 5] && code[2] == p[pos + 6] && code[3]
            == p[pos + 7]);
        assert(p[n] == sinf[0] && p[n + 1] == sinf[1] && p[n + 2] == sinf[2] && p[n + 3]
            == sinf[3]);
        assert(p[n + 4] == sinf[4]);
        if pos + 8 <= n {
            assert(marked_at(before, pos + 4));
        }
    }
}

#[verifier::rlimit(60)]
pub proof fn lemma_reaches_sinf(
    before: Seq<u8>,
    sinf: Seq<u8>,
    after: Seq<u8>,
    pos: int,
    kid: Seq<u8>,
    t: Target,
)
    requires
        unmarked(before),
        sinf.len() >= 8,
        plain_start(sinf),
        sinf[4] == 0x73,
        0 <= pos <= before.len(),
    ensures
        init::entry_rewritten(before + sinf + after, pos, kid, t, before.take(pos))
            == init::entry_rewritten(
            before + sinf + after,
            before.len() as int,
            kid,
            t,
            before,
        ),
    decreases before.len() - pos,
{
    let p = before + sinf + after;
    if pos < before.len() {
        lemma_none_before(before, sinf, after, pos);
        assert(before.take(pos).push(p[pos]) =~= before.take(pos + 1));
        lemma_reaches_sinf(before, sinf, after, pos + 1, kid, t);
    } else {
        assert(before.take(pos) =~= before);
    }
}

/// The sinf box behind the unmarked bytes is pointed at the target.
#[verifier::spinoff_prover]
#[verifier::rlimit(60)]
pub proof fn lemma_sinf_step(
    before: Seq<u8>,
    info: Seq<u8>,
    after: Seq<u8>,
    format: Seq<u8>,
    kid: Seq<u8>,
    t: Target,
)
    requires
        protection::protects(info, format),
        plain_size(info.len() + 8),
    ensures
        ({
            let sinf = cmaf::boxed(box_type::SINF@, info);
            let p = before + sinf + after;
            &&& sinf.len() == info.len() + 8
            &&& plain_start(sinf)
            &&& sinf[4] == 0x73
            &&& init::entry_rewritten(p, before.len() as int, kid, t, before)
                == init::entry_rewritten(
                p,
                (before.len() + sinf.len()) as int,
                kid,
                t,
                before + init::sinf_box(format, t, kid),
            )
        }),
{
    let sinf = cmaf::boxed(box_type::SINF@, info);
    let p = before + sinf + after;
    let n = before.len() as int;
    let size = (info.len() + 8) as u32;
    assert(sinf.len() == info.len() + 8);
    lemma_box_starts(box_type::SINF@, info);
    assert(sinf.subrange(0, 4) =~= bytes::bytes32(size));
    assert(p.subrange(n, n + 4) =~= bytes::bytes32(size));
    bytes::lemma_be32_of_bytes32(p, n, size);
    assert(p.subrange(n + 4, n + 8) =~= box_type::SINF@);
    assert(sinf[4] == box_type::SINF@[0]);
    assert(init::sinf_starts(p, n, 1));
    assert(p.subrange(n, n + size) =~= sinf);
    bytes::lemma_be32_of_bytes32(sinf, 0, size);
    let h = cmaf::header_at(sinf, 0)->Ok_0;
    assert(h.header_size == 8);
    assert(bytes::clamped(sinf, 8, size as int) =~= info);
    protection::rewritten_protection_is_the_target(info, format, t, kid);
}

proof fn lemma_prefix_leads(r: Seq<u8>, before: Seq<u8>, new: Seq<u8>)
    requires
        unmarked(before),
        (before + new).is_prefix_of(r),
    ensures
        leads_at(r, before.len() as int, new),
        r.take(before.len() as int) == before,
{
    let lead = before + new;
    let n = before.len() as int;
    assert(r.take(lead.len() as int) == lead);
    assert(r.take(n) =~= lead.take(n));
    assert(lead.take(n) =~= before);
    assert(r.subrange(n, n + new.len()) =~= lead.subrange(n, n + new.len()));
    assert(lead.subrange(n, n + new.len()) =~= new);
}

/// After rewriting, unmarked bytes and the protection of the target begin the payload of a
/// protected sample entry.
#[verifier::rlimit(60)]
proof fn lemma_rewritten_payload_leads(
    before: Seq<u8>,
    info: Seq<u8>,
    after: Seq<u8>,
    format: Seq<u8>,
    kid: Seq<u8>,
    t: Target,
    r: Seq<u8>,
)
    requires
        unmarked(before),
        protection::protects(info, format),
        plain_size(info.len() + 8),
        init::entry_rewritten(
            before + cmaf::boxed(box_type::SINF@, info) + after,
            0,
            kid,
            t,
            Seq::empty(),
        ) == Ok::<Seq<u8>, ErrorView>(r),
    ensures
        leads_at(r, before.len() as int, init::sinf_box(format, t, kid)),
        r.take(before.len() as int) == before,
{
    let sinf = cmaf::boxed(box_type::SINF@, info);
    let new = init::sinf_box(format, t, kid);
    lemma_sinf_step(before, info, after, format, kid, t);
    assert(before.take(0) =~= Seq::empty());
    lemma_reaches_sinf(before, sinf, after, 0, kid, t);
    lemma_entry_extends(
        before + sinf + after,
        (before.len() + sinf.len()) as int,
        kid,
        t,
        before + new,
    );
    lemma_prefix_leads(r, before, new);
}

#[verifier::spinoff_prover]
#[verifier::rlimit(60)]
proof fn lemma_rewritten_entry_leads(
    p: Seq<u8>,
    h: BoxHeader,
    q: Seq<u8>,
    t: Target,
    kid: Seq<u8>,
    format: Seq<u8>,
    before: Seq<u8>,
    info: Seq<u8>,
    after: Seq<u8>,
    e: Seq<u8>,
)
    requires
        round_trip::stands_for(p, h, q),
        entry_protects(q, format, before, info, after),
        init::edited_entry(p, h, SampleEdit::Rewrite(t), kid) == Ok::<Seq<u8>, ErrorView>(e),
        plain_size(e.len()),
    ensures
        leads_to(e, init::sinf_box(format, t, kid)),
        plain_start(e),
{
    let code = round_trip::type_of(q);
    let n = before.len() as int;
    round_trip::lemma_whole_box(q);
    assert(cmaf::boxed(box_type::SINF@, info).len() == info.len() + 8);
    assert(unmarked(before)) by {
        assert((code + before).subrange(4, 4 + n) =~= before);
        lemma_part_unmarked(code + before, 4, 4 + n);
    }
    let r = init::entry_rewritten(round_trip::payload_of(q), 0, kid, t, Seq::empty())->Ok_0;
    lemma_rewritten_payload_leads(before, info, after, format, kid, t, r);
    assert(quiet_code(code));
    lemma_lead_boxed_with(code, r, n, init::sinf_box(format, t, kid));
}

/// After the edit, unmarked bytes and the protection of the target begin a sample entry.
#[verifier::rlimit(60)]
pub proof fn lemma_entry_leads(
    p: Seq<u8>,
    h: BoxHeader,
    q: Seq<u8>,
    edit: SampleEdit,
    kid: Seq<u8>,
    format: Seq<u8>,
    e: Seq<u8>,
)
    requires
        round_trip::stands_for(p, h, q),
        entry_ready(q, edit, format),
        init::edited_entry(p, h, edit, kid) == Ok::<Seq<u8>, ErrorView>(e),
        plain_size(e.len()),
    ensures
        leads_to(e, sinf_for(format, target_of(edit), kid)),
        plain_start(e),
{
    reveal(sinf_for);
    match edit {
        SampleEdit::Inject(t) => {
            lemma_injected_entry_leads(p, h, q, t, kid, e);
        },
        SampleEdit::Rewrite(t) => {
            let (before, info, after) = choose|before: Seq<u8>, info: Seq<u8>, after: Seq<u8>|
                entry_protects(q, format, before, info, after);
            lemma_rewritten_entry_leads(p, h, q, t, kid, format, before, info, after, e);
        },
        SampleEdit::Strip => {},
    }
}

// The sample description.

/// Whether `q` is the first entry of a sample description, behind unmarked bytes.
pub open spec fn first_entry(p: Seq<u8>, q: Seq<u8>) -> bool {
    &&& 8 <= p.len()
    &&& bytes::be32(p, 4) >= 1
    &&& unmarked(p.take(8))
    &&& round_trip::whole_box(q)
    &&& q.is_prefix_of(p.skip(8))
}

proof fn lemma_entries_extend(
    p: Seq<u8>,
    off: int,
    n: nat,
    edit: SampleEdit,
    kid: Seq<u8>,
    got: Seq<u8>,
)
    ensures
        init::stsd_entries(p, off, n, edit, kid, got) matches Ok(r) ==> got.is_prefix_of(r),
    decreases n,
{
    if n == 0 || off + 8 > p.len() {
    } else if let Ok(h) = cmaf::header_at(p, off) {
        if let Ok(b) = init::edited_entry(p, h, edit, kid) {
            lemma_entries_extend(p, off + h.size, (n - 1) as nat, edit, kid, got + b);
        }
    }
}

#[verifier::spinoff_prover]
#[verifier::rlimit(60)]
proof fn lemma_first_entry_edited(
    p: Seq<u8>,
    q: Seq<u8>,
    edit: SampleEdit,
    kid: Seq<u8>,
    entries: Seq<u8>,
)
    requires
        first_entry(p, q),
        p.len() <= u64::MAX,
        init::stsd_entries(p, 8, bytes::be32(p, 4) as nat, edit, kid, Seq::empty()) == Ok::<
            Seq<u8>,
            ErrorView,
        >(entries),
    ensures
        q.len() <= p.len(),
        match cmaf::header_at(p, 8) {
            Ok(h) => round_trip::stands_for(p, h, q) && match init::edited_entry(p, h, edit, kid) {
                Ok(e) => e.is_prefix_of(entries),
                Err(_) => false,
            },
            Err(_) => false,
        },
{
    let head = p.take(8);
    let rest = p.skip(8).skip(q.len() as int);
    assert(p.skip(8).take(q.len() as int) == q);
    assert(p =~= head + q + rest);
    round_trip::lemma_whole_box(q);
    round_trip::lemma_header_moves(head, q, rest);
    let h = cmaf::header_at(p, 8)->Ok_0;
    if let Ok(e) = init::edited_entry(p, h, edit, kid) {
        assert(Seq::<u8>::empty() + e =~= e);
        lemma_entries_extend(
            p,
            8 + h.size,
            (bytes::be32(p, 4) - 1) as nat,
            edit,
            kid,
            Seq::<u8>::empty() + e,
        );
    }
}

/// Whether the edit makes `r` of a sample description with the payload `p`.
#[verifier::opaque]
pub open spec fn stsd_becomes(p: Seq<u8>, edit: SampleEdit, kid: Seq<u8>, r: Seq<u8>) -> bool {
    match init::stsd_entries(p, 8, bytes::be32(p, 4) as nat, edit, kid, Seq::empty()) {
        Ok(entries) => r == cmaf::boxed(box_type::STSD@, p.take(8) + entries),
        Err(_) => false,
    }
}

proof fn lemma_stsd_becomes(s: Seq<u8>, h: BoxHeader, edit: SampleEdit, kid: Seq<u8>, r: Seq<u8>)
    requires
        8 <= cmaf::box_body(s, h).len(),
        init::edited_stsd(s, h, edit, kid) == Ok::<Seq<u8>, ErrorView>(r),
    ensures
        stsd_becomes(cmaf::box_body(s, h), edit, kid, r),
{
    reveal(stsd_becomes);
    let p = cmaf::box_body(s, h);
    bytes::lemma_bytes32_of_be32(p, 4);
    assert(p.subrange(0, 4) + bytes::bytes32(bytes::be32(p, 4)) =~= p.take(8));
}

/// The first entry of an edited sample description.
#[verifier::spinoff_prover]
#[verifier::rlimit(40)]
proof fn lemma_stsd_split(p: Seq<u8>, q: Seq<u8>, edit: SampleEdit, kid: Seq<u8>, r: Seq<u8>) -> (
found: (BoxHeader, Seq<u8>, Seq<u8>))
    requires
        first_entry(p, q),
        p.len() <= u64::MAX,
        stsd_becomes(p, edit, kid, r),
    ensures
        cmaf::header_at(p, 8) == Ok::<BoxHeader, ErrorView>(found.0),
        round_trip::stands_for(p, found.0, q),
        init::edited_entry(p, found.0, edit, kid) == Ok::<Seq<u8>, ErrorView>(found.1),
        r == cmaf::boxed(box_type::STSD@, p.take(8) + found.1 + found.2),
        found.1.len() <= r.len(),
        q.len() <= p.len(),
{
    reveal(stsd_becomes);
    let entries = init::stsd_entries(
        p,
        8,
        bytes::be32(p, 4) as nat,
        edit,
        kid,
        Seq::empty(),
    )->Ok_0;
    lemma_first_entry_edited(p, q, edit, kid, entries);
    let h = cmaf::header_at(p, 8)->Ok_0;
    let e = init::edited_entry(p, h, edit, kid)->Ok_0;
    lemma_prefix_cut(p.take(8), e, entries);
    (h, e, entries.skip(e.len() as int))
}

proof fn lemma_prefix_cut(head: Seq<u8>, e: Seq<u8>, entries: Seq<u8>)
    requires
        e.is_prefix_of(entries),
    ensures
        head + entries == head + e + entries.skip(e.len() as int),
        e.len() <= entries.len(),
        cmaf::boxed(box_type::STSD@, head + entries).len() >= entries.len(),
{
    assert(entries.take(e.len() as int) == e);
    assert(head + entries =~= head + e + entries.skip(e.len() as int));
}

/// Whether the edit makes a sample entry with a plain size of the first one of a sample
/// description.
#[verifier::opaque]
pub open spec fn plain_entry(p: Seq<u8>, edit: SampleEdit, kid: Seq<u8>) -> bool {
    match cmaf::header_at(p, 8) {
        Ok(h) => init::edited_entry(p, h, edit, kid) matches Ok(e) ==> plain_size(e.len()),
        Err(_) => true,
    }
}

#[verifier::spinoff_prover]
#[verifier::rlimit(60)]
proof fn lemma_stsd_leads(
    p: Seq<u8>,
    q: Seq<u8>,
    edit: SampleEdit,
    kid: Seq<u8>,
    format: Seq<u8>,
    r: Seq<u8>,
)
    requires
        first_entry(p, q),
        entry_ready(q, edit, format),
        p.len() <= u64::MAX,
        stsd_becomes(p, edit, kid, r),
        plain_size(r.len()),
        plain_entry(p, edit, kid),
    ensures
        leads_to(r, sinf_for(format, target_of(edit), kid)),
        plain_start(r),
{
    let (h, e, rest) = lemma_stsd_split(p, q, edit, kid, r);
    assert(plain_size(e.len())) by {
        reveal(plain_entry);
    }
    lemma_entry_leads(p, h, q, edit, kid, format, e);
    lemma_stsd_around(p.take(8), e, rest, sinf_for(format, target_of(edit), kid), r);
}

proof fn lemma_stsd_around(
    head: Seq<u8>,
    e: Seq<u8>,
    rest: Seq<u8>,
    sinf: Seq<u8>,
    r: Seq<u8>,
)
    requires
        unmarked(head),
        leads_to(e, sinf),
        plain_start(e),
        r == cmaf::boxed(box_type::STSD@, head + e + rest),
        plain_size(r.len()),
    ensures
        leads_to(r, sinf),
        plain_start(r),
{
    lemma_lead_behind(head, e, rest, sinf);
    lemma_lead_boxed(box_type::STSD@, head + e + rest, sinf);
}

// Containers.

/// The boxes that are looked into on the way to a sample description, from the inside.
pub open spec fn level(n: nat) -> Seq<u8> {
    if n == 1 {
        box_type::STSD@
    } else if n == 2 {
        box_type::STBL@
    } else if n == 3 {
        box_type::MINF@
    } else {
        box_type::MDIA@
    }
}

/// Whether a box is left as it is on the way to a sample description, unmarked, and with a size
/// field that is a plain one.
pub open spec fn passed_over(p: Seq<u8>) -> bool {
    &&& unmarked(p)
    &&& plain_start(p)
    &&& round_trip::type_of(p) != box_type::MOOV@
    &&& round_trip::type_of(p) != box_type::TRAK@
    &&& round_trip::type_of(p) != box_type::STSD@
    &&& !protection::holds_boxes(round_trip::type_of(p))
}

/// Whether box `k` of a run of whole boxes is of a type and has the payload `inner`, and those
/// before it are passed over.
pub open spec fn first_at(s: Seq<u8>, k: int, code: Seq<u8>, inner: Seq<u8>) -> bool {
    let parts = round_trip::boxes_of(s);
    &&& round_trip::whole_boxes(s)
    &&& 0 <= k < parts.len()
    &&& round_trip::type_of(parts[k]) == code
    &&& round_trip::payload_of(parts[k]) == inner
    &&& forall|j: int| 0 <= j < k ==> passed_over(#[trigger] parts[j])
}

/// Whether `inner` is the payload of the first box of a type in a run of whole boxes, and the
/// boxes before it are passed over.
pub open spec fn first_box(s: Seq<u8>, code: Seq<u8>, inner: Seq<u8>) -> bool {
    exists|k: int| first_at(s, k, code, inner)
}

/// Whether the way down from a container leads to a sample entry that has the protection of
/// samples of a format after the edit.
#[verifier::opaque]
pub open spec fn ready(s: Seq<u8>, n: nat, edit: SampleEdit, format: Seq<u8>) -> bool
    decreases n,
{
    if n == 0 {
        exists|q: Seq<u8>| #[trigger] first_entry(s, q) && entry_ready(q, edit, format)
    } else {
        exists|inner: Seq<u8>| #[trigger] first_box(s, level(n), inner) && ready(
            inner,
            (n - 1) as nat,
            edit,
            format,
        )
    }
}

/// Whether `r` is unmarked bytes, then `x`, then the rest.
spec fn splits(r: Seq<u8>, before: Seq<u8>, x: Seq<u8>, rest: Seq<u8>) -> bool {
    unmarked(before) && r == before + x + rest
}

proof fn lemma_splits(r: Seq<u8>, before: Seq<u8>, x: Seq<u8>)
    requires
        unmarked(before),
        (before + x).is_prefix_of(r),
    ensures
        splits(r, before, x, r.skip((before.len() + x.len()) as int)),
        x.len() <= r.len(),
{
    let lead = before + x;
    assert(r.take(lead.len() as int) == lead);
    assert(r =~= lead + r.skip(lead.len() as int));
}

/// The boxes of a run, as they are read.
#[verifier::rlimit(60)]
proof fn lemma_first_at(s: Seq<u8>, k: int, code: Seq<u8>, inner: Seq<u8>, i: int)
    requires
        first_at(s, k, code, inner),
        s.len() <= u64::MAX,
        0 <= i <= k,
    ensures
        ({
            let parts = round_trip::boxes_of(s);
            let run = cmaf::run(s);
            &&& run.fault is None
            &&& run.headers.len() == parts.len()
            &&& round_trip::stands_for(s, run.headers[i], parts[i])
            &&& round_trip::stands_for(s, run.headers[k], parts[k])
            &&& inner.len() <= s.len()
        }),
{
    let parts = round_trip::boxes_of(s);
    assert(round_trip::made_of(s, parts));
    round_trip::run_hands_out_every_box(s, parts);
    assert(round_trip::whole_box(parts[i]));
    assert(round_trip::whole_box(parts[k]));
    round_trip::lemma_part_length(parts, i, parts.len());
    round_trip::lemma_part_length(parts, k, parts.len());
    round_trip::lemma_whole_box(parts[k]);
}

/// What the edit makes of the box `h` of a container.
spec fn child_part(s: Seq<u8>, h: BoxHeader, edit: SampleEdit, kid: Seq<u8>) -> Result<
    Seq<u8>,
    ErrorView,
> {
    if init::descends(edit, h.box_type@) {
        match init::edited_children(cmaf::box_body(s, h), 0, edit, kid, Seq::empty()) {
            Ok(c) => Ok(cmaf::boxed(h.box_type@, c)),
            Err(e) => Err(e),
        }
    } else if h.box_type@ == box_type::STSD@ {
        init::edited_stsd(s, h, edit, kid)
    } else {
        Ok(cmaf::box_bytes(s, h))
    }
}

proof fn lemma_children_step(s: Seq<u8>, i: int, edit: SampleEdit, kid: Seq<u8>, got: Seq<u8>)
    requires
        0 <= i < cmaf::run(s).headers.len(),
    ensures
        init::edited_children(s, i, edit, kid, got) == match child_part(
            s,
            cmaf::run(s).headers[i],
            edit,
            kid,
        ) {
            Ok(b) => init::edited_children(s, i + 1, edit, kid, got + b),
            Err(e) => Err(e),
        },
{
}

#[verifier::rlimit(60)]
proof fn lemma_children_extend(s: Seq<u8>, i: int, edit: SampleEdit, kid: Seq<u8>, got: Seq<u8>)
    ensures
        init::edited_children(s, i, edit, kid, got) matches Ok(r) ==> got.is_prefix_of(r),
    decreases cmaf::run(s).headers.len() - i,
{
    let headers = cmaf::run(s).headers;
    if 0 <= i < headers.len() {
        lemma_children_step(s, i, edit, kid, got);
        if let Ok(b) = child_part(s, headers[i], edit, kid) {
            lemma_children_extend(s, i + 1, edit, kid, got + b);
            if let Ok(r) = init::edited_children(s, i, edit, kid, got) {
                lemma_shorter_prefix(got, b, r);
            }
        }
    }
}

proof fn lemma_shorter_prefix(a: Seq<u8>, b: Seq<u8>, r: Seq<u8>)
    requires
        (a + b).is_prefix_of(r),
    ensures
        a.is_prefix_of(r),
{
    assert(r.take(a.len() as int) =~= (a + b).take(a.len() as int));
    assert((a + b).take(a.len() as int) =~= a);
}

/// What the edit makes of the first box of a type stands behind unmarked bytes.
#[verifier::rlimit(60)]
proof fn lemma_children_split(
    s: Seq<u8>,
    i: int,
    k: int,
    code: Seq<u8>,
    inner: Seq<u8>,
    edit: SampleEdit,
    kid: Seq<u8>,
    got: Seq<u8>,
    r: Seq<u8>,
)
    requires
        first_at(s, k, code, inner),
        s.len() <= u64::MAX,
        0 <= i <= k,
        unmarked(got),
        init::edited_children(s, i, edit, kid, got) == Ok::<Seq<u8>, ErrorView>(r),
    ensures
        child_part(s, cmaf::run(s).headers[k], edit, kid) matches Ok(x) && x.len() <= r.len() && (
        exists|before: Seq<u8>, rest: Seq<u8>| splits(r, before, x, rest)),
    decreases k - i,
{
    let h = cmaf::run(s).headers[i];
    let p = round_trip::boxes_of(s)[i];
    lemma_first_at(s, k, code, inner, i);
    lemma_children_step(s, i, edit, kid, got);
    if i < k {
        assert(passed_over(p));
        assert(child_part(s, h, edit, kid) == Ok::<Seq<u8>, ErrorView>(p));
        lemma_apart_all(got, p);
        lemma_children_split(s, i + 1, k, code, inner, edit, kid, got + p, r);
    } else {
        let x = child_part(s, h, edit, kid)->Ok_0;
        lemma_children_extend(s, i + 1, edit, kid, got + x);
        lemma_splits(r, got, x);
    }
}

/// The next box on the way down.
#[verifier::rlimit(60)]
proof fn lemma_way_down(s: Seq<u8>, n: nat, edit: SampleEdit, format: Seq<u8>) -> (found: (
    int,
    Seq<u8>,
))
    requires
        ready(s, n, edit, format),
        n >= 1,
    ensures
        first_at(s, found.0, level(n), found.1),
        ready(found.1, (n - 1) as nat, edit, format),
{
    reveal(ready);
    let inner = choose|inner: Seq<u8>| #[trigger] first_box(s, level(n), inner) && ready(
        inner,
        (n - 1) as nat,
        edit,
        format,
    );
    let k = choose|k: int| first_at(s, k, level(n), inner);
    (k, inner)
}

/// The first entry of a sample description on the way down.
proof fn lemma_way_ends(s: Seq<u8>, edit: SampleEdit, format: Seq<u8>) -> (q: Seq<u8>)
    requires
        ready(s, 0, edit, format),
    ensures
        first_entry(s, q),
        entry_ready(q, edit, format),
{
    reveal(ready);
    choose|q: Seq<u8>| #[trigger] first_entry(s, q) && entry_ready(q, edit, format)
}

proof fn lemma_lead_in(r: Seq<u8>, x: Seq<u8>, sinf: Seq<u8>)
    requires
        exists|before: Seq<u8>, rest: Seq<u8>| splits(r, before, x, rest),
        leads_to(x, sinf),
        plain_start(x),
    ensures
        leads_to(r, sinf),
{
    let (before, rest) = choose|before: Seq<u8>, rest: Seq<u8>| splits(r, before, x, rest);
    lemma_lead_behind(before, x, rest, sinf);
}

/// Whether the edit makes `r` of what is in a container.
#[verifier::opaque]
pub open spec fn children_become(s: Seq<u8>, edit: SampleEdit, kid: Seq<u8>, r: Seq<u8>) -> bool {
    init::edited_children(s, 0, edit, kid, Seq::empty()) == Ok::<Seq<u8>, ErrorView>(r)
}

/// Whether the edit makes `x` of a box on the way down with the payload `inner`.
pub open spec fn level_becomes(
    inner: Seq<u8>,
    n: nat,
    edit: SampleEdit,
    kid: Seq<u8>,
    x: Seq<u8>,
) -> bool {
    if n == 1 {
        stsd_becomes(inner, edit, kid, x)
    } else {
        exists|c: Seq<u8>| #[trigger]
            children_become(inner, edit, kid, c) && x == cmaf::boxed(level(n), c)
    }
}

/// Whether the boxes that the edit makes on the way down have plain sizes.
#[verifier::opaque]
pub open spec fn plain_way(s: Seq<u8>, n: nat, edit: SampleEdit, kid: Seq<u8>) -> bool
    decreases n,
{
    if n == 0 {
        plain_entry(s, edit, kid)
    } else {
        forall|inner: Seq<u8>| #[trigger]
            first_box(s, level(n), inner) ==> plain_level(inner, n, edit, kid) && plain_way(
                inner,
                (n - 1) as nat,
                edit,
                kid,
            )
    }
}

/// Whether the edit makes a box with a plain size of the one on the way down with the payload
/// `inner`.
pub open spec fn plain_level(inner: Seq<u8>, n: nat, edit: SampleEdit, kid: Seq<u8>) -> bool {
    forall|x: Seq<u8>| #[trigger]
        level_becomes(inner, n, edit, kid, x) ==> plain_size(x.len())
}

/// The sizes at the next box on the way down.
proof fn lemma_plain_step(
    s: Seq<u8>,
    k: int,
    n: nat,
    inner: Seq<u8>,
    edit: SampleEdit,
    kid: Seq<u8>,
    x: Seq<u8>,
)
    requires
        plain_way(s, n, edit, kid),
        n >= 1,
        first_at(s, k, level(n), inner),
        level_becomes(inner, n, edit, kid, x),
    ensures
        plain_size(x.len()),
        plain_way(inner, (n - 1) as nat, edit, kid),
{
    reveal(plain_way);
    assert(first_box(s, level(n), inner));
    assert(plain_level(inner, n, edit, kid));
}

/// What the edit makes of the box on the way down stands behind unmarked bytes.
#[verifier::spinoff_prover]
#[verifier::rlimit(60)]
proof fn lemma_level_split(
    s: Seq<u8>,
    k: int,
    n: nat,
    inner: Seq<u8>,
    edit: SampleEdit,
    kid: Seq<u8>,
    r: Seq<u8>,
) -> (x: Seq<u8>)
    requires
        first_at(s, k, level(n), inner),
        s.len() <= u64::MAX,
        1 <= n <= 4,
        edit is Rewrite ==> n <= 3,
        n == 1 ==> 8 <= inner.len(),
        children_become(s, edit, kid, r),
    ensures
        inner.len() <= s.len(),
        known_code(level(n)),
        level_becomes(inner, n, edit, kid, x),
        x.len() <= r.len(),
        exists|before: Seq<u8>, rest: Seq<u8>| splits(r, before, x, rest),
{
    reveal(children_become);
    lemma_nothing_unmarked();
    lemma_first_at(s, k, level(n), inner, k);
    lemma_children_split(s, 0, k, level(n), inner, edit, kid, Seq::empty(), r);
    let h = cmaf::run(s).headers[k];
    let x = child_part(s, h, edit, kid)->Ok_0;
    lemma_levels();
    if n == 1 {
        lemma_stsd_becomes(s, h, edit, kid, x);
    } else {
        let c = init::edited_children(inner, 0, edit, kid, Seq::empty())->Ok_0;
        assert(children_become(inner, edit, kid, c));
    }
    x
}

/// What leads to a sinf box still does in a container around it.
proof fn lemma_boxed_leads(code: Seq<u8>, c: Seq<u8>, x: Seq<u8>, sinf: Seq<u8>)
    requires
        known_code(code),
        x == cmaf::boxed(code, c),
        leads_to(c, sinf),
        plain_size(x.len()),
    ensures
        leads_to(x, sinf),
        plain_start(x),
{
    lemma_lead_boxed(code, c, sinf);
}

/// After the edit, unmarked bytes and the protection of the target begin what is in a
/// container.
#[verifier::spinoff_prover]
#[verifier::rlimit(60)]
proof fn lemma_container_leads(
    s: Seq<u8>,
    n: nat,
    edit: SampleEdit,
    kid: Seq<u8>,
    format: Seq<u8>,
    r: Seq<u8>,
)
    requires
        ready(s, n, edit, format),
        1 <= n <= 4,
        edit is Rewrite ==> n <= 3,
        s.len() <= u64::MAX,
        children_become(s, edit, kid, r),
        plain_way(s, n, edit, kid),
    ensures
        leads_to(r, sinf_for(format, target_of(edit), kid)),
    decreases n,
{
    let sinf = sinf_for(format, target_of(edit), kid);
    let (k, inner) = lemma_way_down(s, n, edit, format);
    if n == 1 {
        let q = lemma_way_ends(inner, edit, format);
        let x = lemma_level_split(s, k, n, inner, edit, kid, r);
        lemma_plain_step(s, k, n, inner, edit, kid, x);
        assert(plain_entry(inner, edit, kid)) by {
            reveal(plain_way);
        }
        lemma_stsd_leads(inner, q, edit, kid, format, x);
        lemma_lead_in(r, x, sinf);
    } else {
        let x = lemma_level_split(s, k, n, inner, edit, kid, r);
        lemma_plain_step(s, k, n, inner, edit, kid, x);
        let c = choose|c: Seq<u8>| #[trigger]
            children_become(inner, edit, kid, c) && x == cmaf::boxed(level(n), c);
        assert(x.len() == c.len() + 8);
        lemma_container_leads(inner, (n - 1) as nat, edit, kid, format, c);
        lemma_boxed_leads(level(n), c, x, sinf);
        lemma_lead_in(r, x, sinf);
    }
}

// Tracks.

#[verifier::rlimit(60)]
proof fn lemma_trak_extends(s: Seq<u8>, i: int, t: Target, kid: Seq<u8>, got: Seq<u8>)
    ensures
        init::rewritten_trak(s, i, t, kid, got) matches Ok(r) ==> got.is_prefix_of(r),
    decreases cmaf::run(s).headers.len() - i,
{
    let headers = cmaf::run(s).headers;
    if 0 <= i < headers.len() {
        let h = headers[i];
        let part = if h.box_type@ == box_type::MDIA@ {
            init::edited_container(
                cmaf::box_body(s, h),
                box_type::MDIA@,
                SampleEdit::Rewrite(t),
                kid,
            )
        } else {
            Ok(cmaf::box_bytes(s, h))
        };
        if let Ok(b) = part {
            lemma_trak_extends(s, i + 1, t, kid, got + b);
            if let Ok(r) = init::rewritten_trak(s, i, t, kid, got) {
                lemma_shorter_prefix(got, b, r);
            }
        }
    }
}

/// What rewriting makes of the media box of a track stands behind unmarked bytes.
#[verifier::rlimit(60)]
proof fn lemma_trak_split(
    s: Seq<u8>,
    i: int,
    k: int,
    inner: Seq<u8>,
    t: Target,
    kid: Seq<u8>,
    got: Seq<u8>,
    r: Seq<u8>,
)
    requires
        first_at(s, k, box_type::MDIA@, inner),
        s.len() <= u64::MAX,
        0 <= i <= k,
        unmarked(got),
        init::rewritten_trak(s, i, t, kid, got) == Ok::<Seq<u8>, ErrorView>(r),
    ensures
        init::edited_container(inner, box_type::MDIA@, SampleEdit::Rewrite(t), kid) matches Ok(x)
            && x.len() <= r.len() && (exists|before: Seq<u8>, rest: Seq<u8>|
            splits(r, before, x, rest)),
        inner.len() <= s.len(),
    decreases k - i,
{
    let h = cmaf::run(s).headers[i];
    let p = round_trip::boxes_of(s)[i];
    lemma_first_at(s, k, box_type::MDIA@, inner, i);
    if i < k {
        assert(passed_over(p));
        lemma_apart_all(got, p);
        lemma_trak_split(s, i + 1, k, inner, t, kid, got + p, r);
    } else {
        let x = init::edited_container(inner, box_type::MDIA@, SampleEdit::Rewrite(t), kid)->Ok_0;
        lemma_trak_extends(s, i + 1, t, kid, got + x);
        lemma_splits(r, got, x);
    }
}

/// The children of a track after the edit.
spec fn track_children(
    s: Seq<u8>,
    edit: SampleEdit,
    kid: Seq<u8>,
) -> Result<Seq<u8>, ErrorView> {
    match edit {
        SampleEdit::Rewrite(t) => init::rewritten_trak(s, 0, t, kid, Seq::empty()),
        _ => init::edited_children(s, 0, edit, kid, Seq::empty()),
    }
}

#[verifier::spinoff_prover]
#[verifier::rlimit(60)]
proof fn lemma_track_inside_leads(
    s: Seq<u8>,
    edit: SampleEdit,
    kid: Seq<u8>,
    format: Seq<u8>,
    r: Seq<u8>,
)
    requires
        ready(s, 4, edit, format),
        s.len() <= u64::MAX,
        track_children(s, edit, kid) == Ok::<Seq<u8>, ErrorView>(r),
        plain_way(s, 4, edit, kid),
    ensures
        leads_to(r, sinf_for(format, target_of(edit), kid)),
{
    let sinf = sinf_for(format, target_of(edit), kid);
    if let SampleEdit::Rewrite(t) = edit {
        let (k, inner) = lemma_way_down(s, 4, edit, format);
        lemma_nothing_unmarked();
        lemma_trak_split(s, 0, k, inner, t, kid, Seq::empty(), r);
        let x = init::edited_container(inner, box_type::MDIA@, edit, kid)->Ok_0;
        let c = init::edited_children(inner, 0, edit, kid, Seq::empty())->Ok_0;
        assert(children_become(inner, edit, kid, c)) by {
            reveal(children_become);
        }
        assert(x == cmaf::boxed(box_type::MDIA@, c));
        assert(x.len() == c.len() + 8);
        assert(level(4) == box_type::MDIA@);
        assert(level_becomes(inner, 4, edit, kid, x));
        lemma_plain_step(s, k, 4, inner, edit, kid, x);
        lemma_container_leads(inner, 3, edit, kid, format, c);
        lemma_boxed_leads(box_type::MDIA@, c, x, sinf);
        lemma_lead_in(r, x, sinf);
    } else {
        assert(children_become(s, edit, kid, r)) by {
            reveal(children_become);
        }
        lemma_container_leads(s, 4, edit, kid, format, r);
    }
}

/// Whether the edit makes `x` of a track with the payload `s`.
#[verifier::opaque]
spec fn track_becomes(
    s: Seq<u8>,
    edit: SampleEdit,
    mapping: Seq<(TrackType, Seq<u8>)>,
    x: Seq<u8>,
) -> bool {
    init::edited_trak(s, edit, mapping) == Ok::<Seq<u8>, ErrorView>(x)
}

/// After the edit, unmarked bytes and the protection of the target begin a track.
proof fn lemma_track_leads(
    s: Seq<u8>,
    edit: SampleEdit,
    mapping: Seq<(TrackType, Seq<u8>)>,
    format: Seq<u8>,
    x: Seq<u8>,
)
    requires
        ready(s, 4, edit, format),
        !(edit is Strip),
        s.len() <= u64::MAX,
        track_becomes(s, edit, mapping, x),
        plain_size(x.len()),
        plain_way(s, 4, edit, init::track_kid(s, mapping)),
    ensures
        leads_to(x, sinf_for(format, target_of(edit), init::track_kid(s, mapping))),
        plain_start(x),
{
    reveal(track_becomes);
    let kid = init::track_kid(s, mapping);
    let c = track_children(s, edit, kid)->Ok_0;
    assert(x == cmaf::boxed(box_type::TRAK@, c));
    assert(x.len() == c.len() + 8);
    lemma_track_inside_leads(s, edit, kid, format, c);
    lemma_boxed_leads(box_type::TRAK@, c, x, sinf_for(format, target_of(edit), kid));
}

// The movie box.

#[verifier::rlimit(60)]
proof fn lemma_moov_extends(
    s: Seq<u8>,
    i: int,
    edit: SampleEdit,
    mapping: Seq<(TrackType, Seq<u8>)>,
    pssh: Seq<u8>,
    wrote: bool,
    got: Seq<u8>,
)
    ensures
        init::moov_children(s, i, edit, mapping, pssh, wrote, got) matches Ok(r)
            ==> got.is_prefix_of(r),
    decreases cmaf::run(s).headers.len() - i,
{
    let headers = cmaf::run(s).headers;
    if 0 <= i < headers.len() {
        let h = headers[i];
        if h.box_type@ == box_type::TRAK@ {
            if let Ok(b) = init::edited_trak(cmaf::box_body(s, h), edit, mapping) {
                lemma_moov_extends(s, i + 1, edit, mapping, pssh, wrote, got + b);
                if let Ok(r) = init::moov_children(s, i, edit, mapping, pssh, wrote, got) {
                    lemma_shorter_prefix(got, b, r);
                }
            }
        } else if h.box_type@ == box_type::PSSH@ && !(edit is Inject) {
            if edit is Rewrite && !wrote {
                lemma_moov_extends(s, i + 1, edit, mapping, pssh, true, got + pssh);
                if let Ok(r) = init::moov_children(s, i, edit, mapping, pssh, wrote, got) {
                    lemma_shorter_prefix(got, pssh, r);
                }
            } else {
                lemma_moov_extends(s, i + 1, edit, mapping, pssh, wrote, got);
            }
        } else {
            let b = cmaf::box_bytes(s, h);
            lemma_moov_extends(s, i + 1, edit, mapping, pssh, wrote, got + b);
            if let Ok(r) = init::moov_children(s, i, edit, mapping, pssh, wrote, got) {
                lemma_shorter_prefix(got, b, r);
            }
        }
    } else if let Ok(r) = init::moov_children(s, i, edit, mapping, pssh, wrote, got) {
        assert(r == got || r == got + pssh);
        assert((got + pssh).take(got.len() as int) =~= got);
        assert(got.take(got.len() as int) =~= got);
    }
}

/// Whether new PSSH boxes can stand in front of tracks: unmarked, and with a plain size at their
/// start.
pub open spec fn calm(pssh: Seq<u8>) -> bool {
    unmarked(pssh) && plain_start(pssh)
}

/// Whether a PSSH box stands in front of box `k`.
#[verifier::opaque]
pub open spec fn pssh_before(s: Seq<u8>, k: int) -> bool {
    exists|j: int|
        0 <= j < k && round_trip::type_of(#[trigger] round_trip::boxes_of(s)[j])
            == box_type::PSSH@
}

/// What the edit makes of the first track stands behind unmarked bytes.
#[verifier::spinoff_prover]
#[verifier::rlimit(60)]
proof fn lemma_moov_split(
    s: Seq<u8>,
    i: int,
    k: int,
    trak: Seq<u8>,
    edit: SampleEdit,
    mapping: Seq<(TrackType, Seq<u8>)>,
    pssh: Seq<u8>,
    wrote: bool,
    got: Seq<u8>,
    r: Seq<u8>,
)
    requires
        first_at(s, k, box_type::TRAK@, trak),
        s.len() <= u64::MAX,
        0 <= i <= k,
        unmarked(got),
        !(edit is Strip),
        edit is Rewrite && pssh_before(s, k) ==> calm(pssh),
        init::moov_children(s, i, edit, mapping, pssh, wrote, got) == Ok::<Seq<u8>, ErrorView>(r),
    ensures
        init::edited_trak(trak, edit, mapping) matches Ok(x) && x.len() <= r.len() && (exists|
            before: Seq<u8>,
            rest: Seq<u8>,
        |
            splits(r, before, x, rest)),
        trak.len() <= s.len(),
    decreases k - i,
{
    let h = cmaf::run(s).headers[i];
    let p = round_trip::boxes_of(s)[i];
    lemma_first_at(s, k, box_type::TRAK@, trak, i);
    if i < k {
        assert(passed_over(p));
        if h.box_type@ == box_type::PSSH@ && edit is Rewrite {
            assert(pssh_before(s, k)) by {
                reveal(pssh_before);
            }
            if !wrote {
                lemma_apart_all(got, pssh);
                lemma_moov_split(
                    s,
                    i + 1,
                    k,
                    trak,
                    edit,
                    mapping,
                    pssh,
                    true,
                    got + pssh,
                    r,
                );
            } else {
                lemma_moov_split(s, i + 1, k, trak, edit, mapping, pssh, wrote, got, r);
            }
        } else {
            lemma_apart_all(got, p);
            lemma_moov_split(s, i + 1, k, trak, edit, mapping, pssh, wrote, got + p, r);
        }
    } else {
        let x = init::edited_trak(trak, edit, mapping)->Ok_0;
        lemma_moov_extends(s, i + 1, edit, mapping, pssh, wrote, got + x);
        lemma_splits(r, got, x);
    }
}

/// The tracks of a movie box lead to a sample entry that has the protection of samples of a
/// format after the edit: the first track does.
pub open spec fn moov_ready(
    s: Seq<u8>,
    trak: Seq<u8>,
    edit: SampleEdit,
    format: Seq<u8>,
) -> bool {
    first_box(s, box_type::TRAK@, trak) && ready(trak, 4, edit, format)
}

/// Whether a PSSH box stands in front of the first track of a movie box.
pub open spec fn pssh_leads(s: Seq<u8>, trak: Seq<u8>) -> bool {
    exists|k: int| #[trigger] first_at(s, k, box_type::TRAK@, trak) && pssh_before(s, k)
}

/// Whether the edit makes a track with a plain size of the one with the payload `trak`.
#[verifier::opaque]
pub open spec fn plain_track(
    trak: Seq<u8>,
    edit: SampleEdit,
    mapping: Seq<(TrackType, Seq<u8>)>,
) -> bool {
    init::edited_trak(trak, edit, mapping) matches Ok(x) ==> plain_size(x.len())
}

/// Whether the edit makes a movie box with a plain size of the one with the payload `s`.
#[verifier::opaque]
pub open spec fn plain_moov(
    s: Seq<u8>,
    edit: SampleEdit,
    mapping: Seq<(TrackType, Seq<u8>)>,
    pssh: Seq<u8>,
) -> bool {
    init::edited_moov(s, edit, mapping, pssh) matches Ok(x) ==> plain_size(x.len())
}

/// The first track of an edited movie box.
#[verifier::spinoff_prover]
#[verifier::rlimit(60)]
proof fn lemma_moov_track(
    s: Seq<u8>,
    trak: Seq<u8>,
    edit: SampleEdit,
    mapping: Seq<(TrackType, Seq<u8>)>,
    pssh: Seq<u8>,
    x: Seq<u8>,
) -> (found: (Seq<u8>, Seq<u8>))
    requires
        first_box(s, box_type::TRAK@, trak),
        !(edit is Strip),
        edit is Rewrite && pssh_leads(s, trak) ==> calm(pssh),
        s.len() <= u64::MAX,
        init::edited_moov(s, edit, mapping, pssh) == Ok::<Seq<u8>, ErrorView>(x),
    ensures
        track_becomes(trak, edit, mapping, found.0),
        trak.len() <= s.len(),
        found.0.len() <= found.1.len(),
        x == cmaf::boxed(box_type::MOOV@, found.1),
        x.len() == found.1.len() + 8,
        exists|before: Seq<u8>, rest: Seq<u8>| splits(found.1, before, found.0, rest),
{
    let k = lemma_track_place(s, trak, edit, pssh);
    let c = moov_inside(s, edit, mapping, pssh)->Ok_0;
    assert(moov_inside(s, edit, mapping, pssh) is Ok && x == cmaf::boxed(box_type::MOOV@, c)) by {
        reveal(moov_inside);
    }
    lemma_moov_length(c);
    lemma_moov_parts(s, k, trak, edit, mapping, pssh, c)
}

/// The place of the first track.
proof fn lemma_track_place(s: Seq<u8>, trak: Seq<u8>, edit: SampleEdit, pssh: Seq<u8>) -> (k: int)
    requires
        first_box(s, box_type::TRAK@, trak),
        edit is Rewrite && pssh_leads(s, trak) ==> calm(pssh),
    ensures
        first_at(s, k, box_type::TRAK@, trak),
        edit is Rewrite && pssh_before(s, k) ==> calm(pssh),
{
    let k = choose|k: int| first_at(s, k, box_type::TRAK@, trak);
    assert(pssh_before(s, k) ==> pssh_leads(s, trak));
    k
}

/// What is in a movie box after the edit.
#[verifier::opaque]
spec fn moov_inside(
    s: Seq<u8>,
    edit: SampleEdit,
    mapping: Seq<(TrackType, Seq<u8>)>,
    pssh: Seq<u8>,
) -> Result<Seq<u8>, ErrorView> {
    init::moov_children(s, 0, edit, mapping, pssh, false, Seq::empty())
}

proof fn lemma_moov_length(c: Seq<u8>)
    ensures
        cmaf::boxed(box_type::MOOV@, c).len() == c.len() + 8,
{
}

#[verifier::spinoff_prover]
#[verifier::rlimit(60)]
proof fn lemma_moov_parts(
    s: Seq<u8>,
    k: int,
    trak: Seq<u8>,
    edit: SampleEdit,
    mapping: Seq<(TrackType, Seq<u8>)>,
    pssh: Seq<u8>,
    c: Seq<u8>,
) -> (found: (Seq<u8>, Seq<u8>))
    requires
        first_at(s, k, box_type::TRAK@, trak),
        !(edit is Strip),
        edit is Rewrite && pssh_before(s, k) ==> calm(pssh),
        s.len() <= u64::MAX,
        moov_inside(s, edit, mapping, pssh) == Ok::<Seq<u8>, ErrorView>(c),
    ensures
        track_becomes(trak, edit, mapping, found.0),
        trak.len() <= s.len(),
        found.0.len() <= found.1.len(),
        found.1 == c,
        exists|before: Seq<u8>, rest: Seq<u8>| splits(c, before, found.0, rest),
{
    reveal(track_becomes);
    reveal(moov_inside);
    lemma_nothing_unmarked();
    lemma_moov_split(s, 0, k, trak, edit, mapping, pssh, false, Seq::empty(), c);
    (init::edited_trak(trak, edit, mapping)->Ok_0, c)
}

/// After the edit, unmarked bytes and the protection of the target begin a movie box.
#[verifier::spinoff_prover]
#[verifier::rlimit(60)]
proof fn lemma_moov_leads(
    s: Seq<u8>,
    trak: Seq<u8>,
    edit: SampleEdit,
    mapping: Seq<(TrackType, Seq<u8>)>,
    pssh: Seq<u8>,
    format: Seq<u8>,
    x: Seq<u8>,
)
    requires
        moov_ready(s, trak, edit, format),
        !(edit is Strip),
        edit is Rewrite && pssh_leads(s, trak) ==> calm(pssh),
        s.len() <= u64::MAX,
        init::edited_moov(s, edit, mapping, pssh) == Ok::<Seq<u8>, ErrorView>(x),
        plain_moov(s, edit, mapping, pssh),
        plain_track(trak, edit, mapping),
        plain_way(trak, 4, edit, init::track_kid(trak, mapping)),
    ensures
        leads_to(x, sinf_for(format, target_of(edit), init::track_kid(trak, mapping))),
        plain_start(x),
{
    let sinf = sinf_for(format, target_of(edit), init::track_kid(trak, mapping));
    let (y, c) = lemma_moov_track(s, trak, edit, mapping, pssh, x);
    assert(plain_size(x.len())) by {
        reveal(plain_moov);
    }
    assert(plain_size(y.len())) by {
        reveal(plain_track);
        reveal(track_becomes);
    }
    lemma_track_leads(trak, edit, mapping, format, y);
    lemma_lead_in(c, y, sinf);
    lemma_boxed_leads(box_type::MOOV@, c, x, sinf);
}

// Init segments.

/// The part of an edited init segment that stands for the box `h`.
spec fn init_part(
    s: Seq<u8>,
    h: BoxHeader,
    edit: SampleEdit,
    mapping: Seq<(TrackType, Seq<u8>)>,
    pssh: Seq<u8>,
    ftyp: Seq<u8>,
) -> Result<Seq<u8>, ErrorView> {
    if h.box_type@ == box_type::FTYP@ {
        Ok(ftyp)
    } else if h.box_type@ == box_type::MOOV@ {
        init::edited_moov(cmaf::box_body(s, h), edit, mapping, pssh)
    } else {
        Ok(cmaf::box_bytes(s, h))
    }
}

#[verifier::rlimit(60)]
proof fn lemma_init_extends(
    s: Seq<u8>,
    i: int,
    edit: SampleEdit,
    mapping: Seq<(TrackType, Seq<u8>)>,
    pssh: Seq<u8>,
    ftyp: Seq<u8>,
    got: Seq<u8>,
)
    ensures
        init::init_boxes(s, i, Some(edit), mapping, pssh, ftyp, got) matches Ok(r)
            ==> got.is_prefix_of(r),
    decreases cmaf::run(s).headers.len() - i,
{
    let headers = cmaf::run(s).headers;
    if 0 <= i < headers.len() {
        if let Ok(b) = init_part(s, headers[i], edit, mapping, pssh, ftyp) {
            lemma_init_extends(s, i + 1, edit, mapping, pssh, ftyp, got + b);
            if let Ok(r) = init::init_boxes(s, i, Some(edit), mapping, pssh, ftyp, got) {
                lemma_shorter_prefix(got, b, r);
            }
        }
    } else {
        assert(got.take(got.len() as int) =~= got);
    }
}

/// What the edit makes of the movie box stands behind unmarked bytes.
#[verifier::spinoff_prover]
#[verifier::rlimit(60)]
proof fn lemma_init_split(
    s: Seq<u8>,
    i: int,
    k: int,
    moov: Seq<u8>,
    edit: SampleEdit,
    mapping: Seq<(TrackType, Seq<u8>)>,
    pssh: Seq<u8>,
    ftyp: Seq<u8>,
    got: Seq<u8>,
    r: Seq<u8>,
)
    requires
        first_at(s, k, box_type::MOOV@, moov),
        s.len() <= u64::MAX,
        0 <= i <= k,
        unmarked(got),
        unmarked(ftyp),
        plain_start(ftyp),
        init::init_boxes(s, i, Some(edit), mapping, pssh, ftyp, got) == Ok::<Seq<u8>, ErrorView>(
            r,
        ),
    ensures
        init::edited_moov(moov, edit, mapping, pssh) matches Ok(x) && x.len() <= r.len() && (exists|
            before: Seq<u8>,
            rest: Seq<u8>,
        |
            splits(r, before, x, rest)),
        moov.len() <= s.len(),
    decreases k - i,
{
    let h = cmaf::run(s).headers[i];
    let p = round_trip::boxes_of(s)[i];
    lemma_first_at(s, k, box_type::MOOV@, moov, i);
    assert(box_type::MOOV@[0] != box_type::FTYP@[0]);
    if i < k {
        assert(passed_over(p));
        let b = if h.box_type@ == box_type::FTYP@ {
            ftyp
        } else {
            p
        };
        assert(init_part(s, h, edit, mapping, pssh, ftyp) == Ok::<Seq<u8>, ErrorView>(b));
        lemma_apart_all(got, b);
        lemma_init_split(s, i + 1, k, moov, edit, mapping, pssh, ftyp, got + b, r);
    } else {
        let x = init::edited_moov(moov, edit, mapping, pssh)->Ok_0;
        lemma_init_extends(s, i + 1, edit, mapping, pssh, ftyp, got + x);
        lemma_splits(r, got, x);
    }
}

/// The file type box has no letter `n` in it.
#[verifier::rlimit(60)]
proof fn lemma_ftyp_unmarked(format: ContainerFormat)
    ensures
        unmarked(format.ftyp()),
        plain_start(format.ftyp()),
{
    reveal(unmarked);
    let brands = format.brands();
    assert(cmaf::joined(brands, 0) == Seq::<u8>::empty());
    assert(cmaf::joined(brands, 1) =~= brands[0]);
    assert(cmaf::joined(brands, 2) == brands[0] + brands[1]);
    if brands.len() == 3 {
        assert(cmaf::joined(brands, 3) == brands[0] + brands[1] + brands[2]);
    }
    let s = format.ftyp();
    assert forall|i: int| 0 <= i < s.len() implies #[trigger] s[i] != 0x6e by {}
    assert forall|i: int| !(#[trigger] marked_at(s, i)) by {
        if marked_at(s, i) {
            assert(s[i + 2] != 0x6e);
        }
    }
}

/// Whether the way down from an init segment leads to a sample entry that has the protection of
/// samples of a format after the edit: in the first track, the one with the payload `trak`, of
/// the movie box.
pub open spec fn init_ready(
    s: Seq<u8>,
    trak: Seq<u8>,
    edit: SampleEdit,
    format: Seq<u8>,
) -> bool {
    exists|moov: Seq<u8>| #[trigger]
        first_box(s, box_type::MOOV@, moov) && moov_ready(moov, trak, edit, format)
}

/// Whether the boxes that the edit makes on the way down from an init segment have plain sizes:
/// the movie box, the track with the payload `trak`, and those in it down to the sample entry.
pub open spec fn plain_init(
    s: Seq<u8>,
    trak: Seq<u8>,
    edit: SampleEdit,
    mapping: Seq<(TrackType, Seq<u8>)>,
    pssh: Seq<u8>,
) -> bool {
    &&& forall|moov: Seq<u8>| #[trigger]
        first_box(s, box_type::MOOV@, moov) ==> plain_moov(moov, edit, mapping, pssh)
    &&& plain_track(trak, edit, mapping)
    &&& plain_way(trak, 4, edit, init::track_kid(trak, mapping))
}

/// Whether a PSSH box stands in front of the first track of an init segment.
pub open spec fn pssh_in_front(s: Seq<u8>, trak: Seq<u8>) -> bool {
    exists|moov: Seq<u8>| #[trigger]
        first_box(s, box_type::MOOV@, moov) && pssh_leads(moov, trak)
}

#[verifier::rlimit(60)]
proof fn lemma_format_known(s: Seq<u8>, n: nat, edit: SampleEdit, format: Seq<u8>)
    requires
        ready(s, n, edit, format),
    ensures
        format.len() == 4,
        !(edit is Strip),
    decreases n,
{
    if n == 0 {
        let q = lemma_way_ends(s, edit, format);
        match edit {
            SampleEdit::Rewrite(_) => {
                let (before, info, after) = choose|before: Seq<u8>, info: Seq<u8>, after: Seq<u8>|
                    entry_protects(q, format, before, info, after);
                let (b, c) = choose|b: Seq<u8>, c: Seq<u8>| #[trigger]
                    protection::protects_by(info, format, b, c);
            },
            _ => {},
        }
    } else {
        let (k, inner) = lemma_way_down(s, n, edit, format);
        lemma_format_known(inner, (n - 1) as nat, edit, format);
    }
}

#[verifier::spinoff_prover]
#[verifier::rlimit(60)]
proof fn lemma_edited_init_leads(
    s: Seq<u8>,
    trak: Seq<u8>,
    edit: SampleEdit,
    mapping: Seq<(TrackType, Seq<u8>)>,
    pssh: Seq<u8>,
    ftyp: Seq<u8>,
    format: Seq<u8>,
    out: Seq<u8>,
)
    requires
        init_ready(s, trak, edit, format),
        edit is Rewrite && pssh_in_front(s, trak) ==> calm(pssh),
        unmarked(ftyp),
        plain_start(ftyp),
        s.len() <= u64::MAX,
        init::init_boxes(s, 0, Some(edit), mapping, pssh, ftyp, Seq::empty()) == Ok::<
            Seq<u8>,
            ErrorView,
        >(out),
        plain_init(s, trak, edit, mapping, pssh),
    ensures
        leads_to(out, sinf_for(format, target_of(edit), init::track_kid(trak, mapping))),
        format.len() == 4,
{
    let moov = choose|moov: Seq<u8>| #[trigger]
        first_box(s, box_type::MOOV@, moov) && moov_ready(moov, trak, edit, format);
    let k = choose|k: int| first_at(s, k, box_type::MOOV@, moov);
    lemma_format_known(trak, 4, edit, format);
    lemma_nothing_unmarked();
    lemma_init_split(s, 0, k, moov, edit, mapping, pssh, ftyp, Seq::empty(), out);
    let x = init::edited_moov(moov, edit, mapping, pssh)->Ok_0;
    assert(pssh_leads(moov, trak) ==> pssh_in_front(s, trak));
    lemma_moov_leads(moov, trak, edit, mapping, pssh, format, x);
    lemma_lead_in(
        out,
        x,
        sinf_for(format, target_of(edit), init::track_kid(trak, mapping)),
    );
}

/// A segment without the bytes `sinf` has no protection.
pub proof fn clear_segments_have_no_protection(s: Seq<u8>)
    requires
        unmarked(s),
    ensures
        init::protection_of(s) == Ok::<Option<ProtectionView>, ErrorView>(None),
{
    lemma_none_found(s, 0);
}

#[verifier::rlimit(60)]
proof fn lemma_none_found(s: Seq<u8>, i: int)
    requires
        unmarked(s),
        0 <= i,
    ensures
        init::find_sinf(s, i) is None,
    decreases s.len() - i,
{
    reveal(unmarked);
    if i + 8 <= s.len() {
        if init::sinf_starts(s, i, 8) {
            let code = s.subrange(i + 4, i + 8);
            assert(code[0] == s[i + 4] && code[1] == s[i + 5] && code[2] == s[i + 6] && code[3]
                == s[i + 7]);
            assert(marked_at(s, i + 4));
        }
        lemma_none_found(s, i + 1);
    }
}

/// Protection that was added to a clear init segment is found in it: the format that the first
/// sample entry of the first track had, the scheme, the key of that track, the IV size and the
/// pattern. Left out are only size fields on the way there that spell `sinf` or the end of it.
#[verifier::rlimit(60)]
pub proof fn added_protection_is_found(
    s: Seq<u8>,
    trak: Seq<u8>,
    t: Target,
    systems: Seq<SystemView>,
    mapping: Seq<(TrackType, Seq<u8>)>,
    container_format: ContainerFormat,
    format: Seq<u8>,
    out: Seq<u8>,
)
    requires
        init_ready(s, trak, SampleEdit::Inject(t), format),
        protection::full_keys(mapping),
        s.len() <= u64::MAX,
        init::edited_init(s, SampleEdit::Inject(t), systems, mapping, container_format) == Ok::<
            Seq<u8>,
            ErrorView,
        >(out),
        plain_init(
            s,
            trak,
            SampleEdit::Inject(t),
            mapping,
            init::pssh_boxes(systems, mapping, t.scheme),
        ),
    ensures
        init::protection_of(out) == Ok::<Option<ProtectionView>, ErrorView>(
            Some(protection::sinf_info(format, t, init::track_kid(trak, mapping))),
        ),
{
    let pssh = init::pssh_boxes(systems, mapping, t.scheme);
    lemma_ftyp_unmarked(container_format);
    lemma_edited_init_leads(
        s,
        trak,
        SampleEdit::Inject(t),
        mapping,
        pssh,
        container_format.ftyp(),
        format,
        out,
    );
    protection::lemma_track_kid(trak, mapping);
    lemma_led_to_is_found(out, format, t, init::track_kid(trak, mapping));
}

/// Protection that was pointed at another scheme is found as that of the target: the format
/// stays, and scheme, key, IV size and pattern are the new ones. Left out are only size fields on
/// the way there that spell `sinf` or the end of it, and new PSSH boxes that do so in front of
/// the track.
#[verifier::rlimit(60)]
pub proof fn rewritten_protection_is_found(
    s: Seq<u8>,
    trak: Seq<u8>,
    t: Target,
    systems: Seq<SystemView>,
    mapping: Seq<(TrackType, Seq<u8>)>,
    container_format: ContainerFormat,
    format: Seq<u8>,
    out: Seq<u8>,
)
    requires
        init_ready(s, trak, SampleEdit::Rewrite(t), format),
        protection::full_keys(mapping),
        pssh_in_front(s, trak) ==> calm(init::pssh_boxes(systems, mapping, t.scheme)),
        s.len() <= u64::MAX,
        init::edited_init(s, SampleEdit::Rewrite(t), systems, mapping, container_format) == Ok::<
            Seq<u8>,
            ErrorView,
        >(out),
        plain_init(
            s,
            trak,
            SampleEdit::Rewrite(t),
            mapping,
            init::pssh_boxes(systems, mapping, t.scheme),
        ),
    ensures
        init::protection_of(out) == Ok::<Option<ProtectionView>, ErrorView>(
            Some(protection::sinf_info(format, t, init::track_kid(trak, mapping))),
        ),
{
    let pssh = init::pssh_boxes(systems, mapping, t.scheme);
    lemma_ftyp_unmarked(container_format);
    lemma_edited_init_leads(
        s,
        trak,
        SampleEdit::Rewrite(t),
        mapping,
        pssh,
        container_format.ftyp(),
        format,
        out,
    );
    protection::lemma_track_kid(trak, mapping);
    lemma_led_to_is_found(out, format, t, init::track_kid(trak, mapping));
}

proof fn lemma_levels()
    ensures
        box_type::STSD@ != box_type::STBL@,
        box_type::STSD@ != box_type::MINF@,
        box_type::STSD@ != box_type::MDIA@,
{
    assert(box_type::STSD@[2] != box_type::STBL@[2]);
    assert(box_type::STSD@[0] != box_type::MINF@[0]);
    assert(box_type::STSD@[0] != box_type::MDIA@[0]);
}

} // verus!
