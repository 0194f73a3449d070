//! Protection that is added to an init segment is found in it, and comes off again.

use crate::bytes;
use crate::drm::SystemView;
use crate::error::ErrorView;
use crate::media::box_type;
use crate::media::cmaf;
use crate::media::cmaf::{BoxHeader, ProtectionView, TencView};
use crate::media::codec;
use crate::media::container;
use crate::media::container::ContainerFormat;
use crate::media::init;
use crate::media::init::{SampleEdit, SinfView, Target};
use crate::media::round_trip;
use crate::media::TrackType;
use vstd::prelude::*;

verus! {

// The sinf box.

/// The boxes in a sinf box.
spec fn sinf_parts(format: Seq<u8>, t: Target, kid: Seq<u8>) -> Seq<Seq<u8>> {
    seq![
        cmaf::boxed(box_type::FRMA@, format),
        init::schm_box(t.scheme),
        cmaf::boxed(box_type::SCHI@, init::tenc_box(kid, t.iv_size, t.pattern)),
    ]
}

/// The payload of a sinf box.
spec fn sinf_payload(format: Seq<u8>, t: Target, kid: Seq<u8>) -> Seq<u8> {
    cmaf::boxed(box_type::FRMA@, format) + init::schm_box(t.scheme) + cmaf::boxed(
        box_type::SCHI@,
        init::tenc_box(kid, t.iv_size, t.pattern),
    )
}

/// The payload of a tenc box.
spec fn tenc_payload(kid: Seq<u8>, iv_size: u8, pattern: (u8, u8)) -> Seq<u8> {
    bytes::zeros(4) + seq![init::pattern_byte(pattern)] + seq![1u8] + seq![iv_size] + kid
}

/// What a tenc box that was built says.
pub open spec fn tenc_info(kid: Seq<u8>, iv_size: u8, pattern: (u8, u8)) -> TencView {
    TencView {
        is_protected: 1,
        default_per_sample_iv_size: iv_size,
        default_kid: kid,
        default_crypt_byte_block: pattern.0 % 16,
        default_skip_byte_block: pattern.1 % 16,
        default_constant_iv: None,
    }
}

/// A tenc box that was built is parsed back: the key, the IV size and the pattern, of which a
/// nibble each is kept.
pub proof fn tenc_round_trip(kid: Seq<u8>, iv_size: u8, pattern: (u8, u8))
    requires
        kid.len() == 16,
    ensures
        round_trip::whole_box(init::tenc_box(kid, iv_size, pattern)),
        round_trip::type_of(init::tenc_box(kid, iv_size, pattern)) == box_type::TENC@,
        cmaf::tenc_of(round_trip::payload_of(init::tenc_box(kid, iv_size, pattern))) == Ok::<
            TencView,
            ErrorView,
        >(tenc_info(kid, iv_size, pattern)),
{
    let p = tenc_payload(kid, iv_size, pattern);
    round_trip::boxed_reads_back(box_type::TENC@, p);
    assert(p.len() == 23);
    assert(p[4] == init::pattern_byte(pattern));
    assert(p[5] == 1);
    assert(p[6] == iv_size);
    assert(p.subrange(7, 23) =~= kid);
}

/// What a sinf box that was built says.
pub open spec fn sinf_info(format: Seq<u8>, t: Target, kid: Seq<u8>) -> ProtectionView {
    ProtectionView {
        original_format: format,
        scheme_type: t.scheme.code(),
        scheme_version: 0x10000,
        tenc: tenc_info(kid, t.iv_size, t.pattern),
    }
}

proof fn lemma_sinf_lengths(format: Seq<u8>, t: Target, kid: Seq<u8>)
    requires
        format.len() == 4,
        kid.len() == 16,
    ensures
        init::tenc_box(kid, t.iv_size, t.pattern).len() == 31,
        init::schm_box(t.scheme).len() == 20,
        sinf_payload(format, t, kid).len() == 71,
        init::sinf_box(format, t, kid) == cmaf::boxed(
            box_type::SINF@,
            sinf_payload(format, t, kid),
        ),
        init::sinf_box(format, t, kid).len() == 79,
{
    assert(t.scheme.code().len() == 4);
}

/// The boxes in a sinf box that was built, as they are read.
proof fn lemma_sinf_boxes(format: Seq<u8>, t: Target, kid: Seq<u8>)
    requires
        format.len() == 4,
        kid.len() == 16,
    ensures
        ({
            let s = sinf_payload(format, t, kid);
            let parts = sinf_parts(format, t, kid);
            &&& round_trip::made_of(s, parts)
            &&& round_trip::type_of(parts[0]) == box_type::FRMA@
            &&& round_trip::payload_of(parts[0]) == format
            &&& round_trip::type_of(parts[1]) == box_type::SCHM@
            &&& round_trip::payload_of(parts[1]) == bytes::zeros(4) + t.scheme.code()
                + bytes::bytes32(0x10000)
            &&& round_trip::type_of(parts[2]) == box_type::SCHI@
            &&& round_trip::payload_of(parts[2]) == init::tenc_box(kid, t.iv_size, t.pattern)
        }),
{
    let s = sinf_payload(format, t, kid);
    let parts = sinf_parts(format, t, kid);
    lemma_sinf_lengths(format, t, kid);
    round_trip::boxed_reads_back(box_type::FRMA@, format);
    round_trip::boxed_reads_back(
        box_type::SCHM@,
        bytes::zeros(4) + t.scheme.code() + bytes::bytes32(0x10000),
    );
    round_trip::boxed_reads_back(
        box_type::SCHI@,
        init::tenc_box(kid, t.iv_size, t.pattern),
    );
    assert(cmaf::joined(parts, 0) == Seq::<u8>::empty());
    assert(cmaf::joined(parts, 1) =~= parts[0]);
    assert(cmaf::joined(parts, 2) == parts[0] + parts[1]);
    assert(cmaf::joined(parts, 3) == s);
}

/// A single box is read as the one box that it is.
pub proof fn lemma_only_box(b: Seq<u8>)
    requires
        round_trip::whole_box(b),
        b.len() <= u64::MAX,
    ensures
        cmaf::run(b).fault is None,
        cmaf::run(b).headers.len() == 1,
        round_trip::stands_for(b, cmaf::run(b).headers[0], b),
        cmaf::header_at(b, 0) == Ok::<BoxHeader, ErrorView>(cmaf::run(b).headers[0]),
        cmaf::run(b).headers[0].offset + cmaf::run(b).headers[0].size <= b.len(),
{
    let parts = seq![b];
    round_trip::lemma_whole_box(b);
    assert(cmaf::joined(parts, 0) == Seq::<u8>::empty());
    assert(cmaf::joined(parts, 1) =~= b);
    assert(round_trip::made_of(b, parts));
    round_trip::run_hands_out_every_box(b, parts);
    assert(round_trip::stands_for(b, cmaf::run(b).headers[0], parts[0]));
    let none = Seq::<u8>::empty();
    assert(none + b + none =~= b);
    round_trip::lemma_header_moves(none, b, none);
}

/// A single box is found as a child by its type.
pub proof fn lemma_only_child(b: Seq<u8>)
    requires
        round_trip::whole_box(b),
        b.len() <= u64::MAX,
    ensures
        match cmaf::child(b, round_trip::type_of(b)) {
            Some(h) => h.offset + h.size <= b.len() && cmaf::box_body(b, h)
                == round_trip::payload_of(b),
            None => false,
        },
{
    lemma_only_box(b);
}

/// The tenc box is found in the schi box around it.
#[verifier::spinoff_prover]
#[verifier::rlimit(60)]
proof fn lemma_tenc_found(kid: Seq<u8>, iv_size: u8, pattern: (u8, u8))
    requires
        kid.len() == 16,
    ensures
        ({
            let b = init::tenc_box(kid, iv_size, pattern);
            match cmaf::child(b, box_type::TENC@) {
                Some(h) => h.offset + h.size <= b.len() && cmaf::tenc_of(cmaf::box_body(b, h))
                    == Ok::<TencView, ErrorView>(tenc_info(kid, iv_size, pattern)),
                None => false,
            }
        }),
{
    let b = init::tenc_box(kid, iv_size, pattern);
    tenc_round_trip(kid, iv_size, pattern);
    assert(b.len() == 31);
    lemma_only_child(b);
}

proof fn lemma_sinf_codes()
    ensures
        box_type::SCHM@ != box_type::FRMA@,
        box_type::SCHI@ != box_type::FRMA@,
        box_type::SCHI@ != box_type::SCHM@,
{
    assert(box_type::SCHM@[0] != box_type::FRMA@[0]);
    assert(box_type::SCHI@[0] != box_type::FRMA@[0]);
    assert(box_type::SCHI@[3] != box_type::SCHM@[3]);
}

proof fn lemma_schm_fields(scheme: Seq<u8>)
    requires
        scheme.len() == 4,
    ensures
        ({
            let b = bytes::zeros(4) + scheme + bytes::bytes32(0x10000);
            b.len() == 12 && b.subrange(4, 8) == scheme && bytes::be32(b, 8) == 0x10000
        }),
{
    let b = bytes::zeros(4) + scheme + bytes::bytes32(0x10000);
    assert(b.subrange(4, 8) =~= scheme);
    assert(b.subrange(8, 12) =~= bytes::bytes32(0x10000));
    bytes::lemma_be32_of_bytes32(b, 8, 0x10000);
}

/// What the three boxes of a sinf box add.
proof fn lemma_sinf_steps(s: Seq<u8>, headers: Seq<BoxHeader>, format: Seq<u8>, t: Target, kid: Seq<u8>, got: SinfView)
    requires
        format.len() == 4,
        kid.len() == 16,
        headers.len() == 3,
        headers[0].box_type@ == box_type::FRMA@,
        cmaf::box_body(s, headers[0]) == format,
        headers[1].box_type@ == box_type::SCHM@,
        cmaf::box_body(s, headers[1]) == bytes::zeros(4) + t.scheme.code() + bytes::bytes32(
            0x10000,
        ),
        headers[2].box_type@ == box_type::SCHI@,
        cmaf::box_body(s, headers[2]) == init::tenc_box(kid, t.iv_size, t.pattern),
    ensures
        ({
            let one = SinfView { original_format: format, ..got };
            let two = SinfView { scheme_type: t.scheme.code(), scheme_version: 0x10000, ..one };
            let three = SinfView { tenc: Some(tenc_info(kid, t.iv_size, t.pattern)), ..two };
            &&& init::sinf_step(s, headers[0], got) == Ok::<SinfView, ErrorView>(one)
            &&& init::sinf_step(s, headers[1], one) == Ok::<SinfView, ErrorView>(two)
            &&& init::sinf_step(s, headers[2], two) == Ok::<SinfView, ErrorView>(three)
        }),
{
    lemma_sinf_codes();
    assert(format.subrange(0, 4) =~= format);
    lemma_schm_fields(t.scheme.code());
    lemma_tenc_found(kid, t.iv_size, t.pattern);
}

/// A sinf payload that was built is read back.
#[verifier::rlimit(60)]
proof fn lemma_sinf_read_back(format: Seq<u8>, t: Target, kid: Seq<u8>, got: SinfView)
    requires
        format.len() == 4,
        kid.len() == 16,
    ensures
        init::frma_in(sinf_payload(format, t, kid), 0) == Some(format),
        init::sinf_scan(sinf_payload(format, t, kid), 0, got) == Ok::<SinfView, ErrorView>(
            (SinfView {
                original_format: format,
                scheme_type: t.scheme.code(),
                scheme_version: 0x10000,
                tenc: Some(tenc_info(kid, t.iv_size, t.pattern)),
            }),
        ),
{
    let s = sinf_payload(format, t, kid);
    let parts = sinf_parts(format, t, kid);
    lemma_sinf_lengths(format, t, kid);
    lemma_sinf_boxes(format, t, kid);
    round_trip::run_hands_out_every_box(s, parts);
    let headers = cmaf::run(s).headers;
    assert(round_trip::stands_for(s, headers[0], parts[0]));
    assert(round_trip::stands_for(s, headers[1], parts[1]));
    assert(round_trip::stands_for(s, headers[2], parts[2]));
    assert(format.subrange(0, 4) =~= format);
    lemma_sinf_steps(s, headers, format, t, kid, got);
    lemma_scan_of_three(s, got);
}

proof fn lemma_scan_of_three(s: Seq<u8>, got: SinfView)
    requires
        cmaf::run(s).headers.len() == 3,
        ({
            let headers = cmaf::run(s).headers;
            let one = init::sinf_step(s, headers[0], got);
            let two = init::sinf_step(s, headers[1], one->Ok_0);
            one is Ok && two is Ok && init::sinf_step(s, headers[2], two->Ok_0) is Ok
        }),
    ensures
        ({
            let headers = cmaf::run(s).headers;
            let one = init::sinf_step(s, headers[0], got);
            let two = init::sinf_step(s, headers[1], one->Ok_0);
            init::sinf_scan(s, 0, got) == init::sinf_step(s, headers[2], two->Ok_0)
        }),
{
    let headers = cmaf::run(s).headers;
    let one = init::sinf_step(s, headers[0], got)->Ok_0;
    let two = init::sinf_step(s, headers[1], one)->Ok_0;
    let three = init::sinf_step(s, headers[2], two)->Ok_0;
    assert(init::sinf_scan(s, 3, three) == Ok::<SinfView, ErrorView>(three));
    assert(init::sinf_scan(s, 2, two) == init::sinf_scan(s, 3, three));
    assert(init::sinf_scan(s, 1, one) == init::sinf_scan(s, 2, two));
    assert(init::sinf_scan(s, 0, got) == init::sinf_scan(s, 1, one));
}

/// A sinf box that was built is a box of 79 bytes where it stands.
#[verifier::spinoff_prover]
#[verifier::rlimit(60)]
pub proof fn lemma_sinf_starts(
    before: Seq<u8>,
    format: Seq<u8>,
    t: Target,
    kid: Seq<u8>,
    after: Seq<u8>,
)
    requires
        format.len() == 4,
        kid.len() == 16,
    ensures
        ({
            let sinf = init::sinf_box(format, t, kid);
            &&& init::sinf_starts(before + sinf + after, before.len() as int, 8)
            &&& sinf.len() == 79
            &&& sinf[0] == 0 && sinf[1] == 0 && sinf[2] == 0 && sinf[3] == 79
        }),
{
    let sinf = init::sinf_box(format, t, kid);
    let s = before + sinf + after;
    let at = before.len() as int;
    lemma_sinf_lengths(format, t, kid);
    assert(s.subrange(at, at + 79) =~= sinf);
    lemma_sinf_size(s, at, format, t, kid);
    assert(sinf.subrange(0, 4) =~= bytes::bytes32(79));
    assert(sinf[0] == sinf.subrange(0, 4)[0] && sinf[1] == sinf.subrange(0, 4)[1] && sinf[2]
        == sinf.subrange(0, 4)[2] && sinf[3] == sinf.subrange(0, 4)[3]);
}

/// Where a sinf box that was built is the first one, it is read back: format, scheme, key, IV
/// size and pattern.
#[verifier::spinoff_prover]
#[verifier::rlimit(60)]
pub proof fn lemma_found_protection(
    before: Seq<u8>,
    format: Seq<u8>,
    t: Target,
    kid: Seq<u8>,
    after: Seq<u8>,
)
    requires
        format.len() == 4,
        kid.len() == 16,
        init::find_sinf(before + init::sinf_box(format, t, kid) + after, 0) == Some(
            before.len() as int,
        ),
    ensures
        init::protection_of(before + init::sinf_box(format, t, kid) + after) == Ok::<
            Option<ProtectionView>,
            ErrorView,
        >(Some(sinf_info(format, t, kid))),
{
    let sinf = init::sinf_box(format, t, kid);
    let s = before + sinf + after;
    let at = before.len() as int;
    lemma_sinf_lengths(format, t, kid);
    assert(s.subrange(at, at + 79) =~= sinf);
    lemma_sinf_size(s, at, format, t, kid);
    let none = SinfView {
        original_format: bytes::zeros(4),
        scheme_type: bytes::zeros(4),
        scheme_version: 0,
        tenc: None,
    };
    lemma_sinf_read_back(format, t, kid, none);
}

/// The size field, the type and the payload of a sinf box that stands at `at`.
proof fn lemma_sinf_size(s: Seq<u8>, at: int, format: Seq<u8>, t: Target, kid: Seq<u8>)
    requires
        format.len() == 4,
        kid.len() == 16,
        0 <= at,
        at + 79 <= s.len(),
        s.subrange(at, at + 79) == init::sinf_box(format, t, kid),
    ensures
        bytes::be32(s, at) == 79,
        s.subrange(at + 4, at + 8) == box_type::SINF@,
        s.subrange(at + 8, at + 79) == sinf_payload(format, t, kid),
{
    let sinf = init::sinf_box(format, t, kid);
    lemma_sinf_lengths(format, t, kid);
    assert(s.subrange(at, at + 4) =~= sinf.subrange(0, 4));
    assert(sinf.subrange(0, 4) =~= bytes::bytes32(79));
    bytes::lemma_be32_of_bytes32(s, at, 79);
    assert(s.subrange(at + 4, at + 8) =~= sinf.subrange(4, 8));
    assert(sinf.subrange(4, 8) =~= box_type::SINF@);
    assert(s.subrange(at + 8, at + 79) =~= sinf.subrange(8, 79));
    assert(sinf.subrange(8, 79) =~= sinf_payload(format, t, kid));
}

proof fn lemma_schi_rewritten(b: Seq<u8>, kid: Seq<u8>, t: Target)
    requires
        round_trip::whole_box(b),
        round_trip::type_of(b) == box_type::TENC@,
        b.len() <= u64::MAX,
    ensures
        init::schi_rewritten(b, kid, t) == Ok::<Seq<u8>, ErrorView>(
            cmaf::boxed(box_type::SCHI@, init::tenc_box(kid, t.iv_size, t.pattern)),
        ),
{
    lemma_only_box(b);
    let made = init::tenc_box(kid, t.iv_size, t.pattern);
    assert(Seq::<u8>::empty() + made =~= made);
    assert(init::schi_children(b, 1, kid, t, made) == Ok::<Seq<u8>, ErrorView>(made));
}

/// The rewritten children of a sinf box with three of them.
proof fn lemma_three_rewritten(s: Seq<u8>, a: Seq<u8>, schi: Seq<u8>, kid: Seq<u8>, t: Target)
    requires
        cmaf::run(s).fault is None,
        cmaf::run(s).headers.len() == 3,
        cmaf::run(s).headers[0].box_type@ == box_type::FRMA@,
        cmaf::box_bytes(s, cmaf::run(s).headers[0]) == a,
        cmaf::run(s).headers[1].box_type@ == box_type::SCHM@,
        cmaf::run(s).headers[2].box_type@ == box_type::SCHI@,
        init::schi_rewritten(cmaf::box_body(s, cmaf::run(s).headers[2]), kid, t) == Ok::<
            Seq<u8>,
            ErrorView,
        >(schi),
    ensures
        init::sinf_rewritten(s, kid, t) == Ok::<Seq<u8>, ErrorView>(
            cmaf::boxed(box_type::SINF@, a + init::schm_box(t.scheme) + schi),
        ),
{
    lemma_sinf_codes();
    let two = a + init::schm_box(t.scheme);
    let three = two + schi;
    assert(Seq::<u8>::empty() + a =~= a);
    assert(init::sinf_children(s, 3, kid, t, three) == Ok::<Seq<u8>, ErrorView>(three));
    assert(init::sinf_children(s, 2, kid, t, two) == Ok::<Seq<u8>, ErrorView>(three));
    assert(init::sinf_children(s, 1, kid, t, a) == Ok::<Seq<u8>, ErrorView>(three));
}

/// Whether a sinf payload says what the protection of samples of a format is: a frma box with
/// the format, a schm box, and a schi box with a tenc box in it.
pub open spec fn protects(s: Seq<u8>, format: Seq<u8>) -> bool {
    exists|b: Seq<u8>, c: Seq<u8>| #[trigger]
        protects_by(s, format, b, c)
}

/// Whether `b` and `c` are the scheme and the scheme information in a sinf payload.
pub open spec fn protects_by(s: Seq<u8>, format: Seq<u8>, b: Seq<u8>, c: Seq<u8>) -> bool {
    &&& format.len() == 4
    &&& s == cmaf::boxed(box_type::FRMA@, format) + b + c
    &&& round_trip::whole_box(b)
    &&& round_trip::type_of(b) == box_type::SCHM@
    &&& round_trip::whole_box(c)
    &&& round_trip::type_of(c) == box_type::SCHI@
    &&& round_trip::whole_box(round_trip::payload_of(c))
    &&& round_trip::type_of(round_trip::payload_of(c)) == box_type::TENC@
}

/// Protection that is pointed at another scheme is the protection that would have been added
/// for that scheme: the format stays, and scheme, key, IV size and pattern are the new ones.
#[verifier::spinoff_prover]
#[verifier::rlimit(60)]
pub proof fn rewritten_protection_is_the_target(
    s: Seq<u8>,
    format: Seq<u8>,
    t: Target,
    kid: Seq<u8>,
)
    requires
        protects(s, format),
        s.len() <= u64::MAX,
    ensures
        init::sinf_rewritten(s, kid, t) == Ok::<Seq<u8>, ErrorView>(
            init::sinf_box(format, t, kid),
        ),
{
    let (b, c) = choose|b: Seq<u8>, c: Seq<u8>| #[trigger] protects_by(s, format, b, c);
    let a = cmaf::boxed(box_type::FRMA@, format);
    let parts = seq![a, b, c];
    round_trip::boxed_reads_back(box_type::FRMA@, format);
    round_trip::lemma_whole_box(c);
    assert(cmaf::joined(parts, 0) == Seq::<u8>::empty());
    assert(cmaf::joined(parts, 1) =~= a);
    assert(cmaf::joined(parts, 2) == a + b);
    assert(cmaf::joined(parts, 3) == s);
    assert(round_trip::made_of(s, parts));
    round_trip::run_hands_out_every_box(s, parts);
    let headers = cmaf::run(s).headers;
    assert(round_trip::stands_for(s, headers[0], parts[0]));
    assert(round_trip::stands_for(s, headers[1], parts[1]));
    assert(round_trip::stands_for(s, headers[2], parts[2]));
    lemma_schi_rewritten(round_trip::payload_of(c), kid, t);
    let schi = cmaf::boxed(box_type::SCHI@, init::tenc_box(kid, t.iv_size, t.pattern));
    lemma_three_rewritten(s, a, schi, kid, t);
}

/// The format is what the frma box of a sinf payload says.
pub proof fn lemma_format_named(s: Seq<u8>, format: Seq<u8>)
    requires
        protects(s, format),
        s.len() <= u64::MAX,
    ensures
        init::frma_in(s, 0) == Some(format),
{
    let (b, c) = choose|b: Seq<u8>, c: Seq<u8>| #[trigger] protects_by(s, format, b, c);
    let a = cmaf::boxed(box_type::FRMA@, format);
    let parts = seq![a, b, c];
    round_trip::boxed_reads_back(box_type::FRMA@, format);
    assert(cmaf::joined(parts, 0) == Seq::<u8>::empty());
    assert(cmaf::joined(parts, 1) =~= a);
    assert(cmaf::joined(parts, 2) == a + b);
    assert(cmaf::joined(parts, 3) == s);
    assert(round_trip::made_of(s, parts));
    round_trip::run_hands_out_every_box(s, parts);
    let h = cmaf::run(s).headers[0];
    assert(round_trip::stands_for(s, h, parts[0]));
    assert(format.subrange(0, 4) =~= format);
}

/// A sinf box that was built protects samples of its format.
pub proof fn lemma_built_protects(format: Seq<u8>, t: Target, kid: Seq<u8>)
    requires
        format.len() == 4,
        kid.len() == 16,
    ensures
        exists|info: Seq<u8>|
            init::sinf_box(format, t, kid) == #[trigger] cmaf::boxed(box_type::SINF@, info)
                && info.len() == 71 && protects(info, format),
{
    let info = sinf_payload(format, t, kid);
    let parts = sinf_parts(format, t, kid);
    lemma_sinf_lengths(format, t, kid);
    lemma_sinf_boxes(format, t, kid);
    tenc_round_trip(kid, t.iv_size, t.pattern);
    assert(round_trip::whole_box(parts[1]));
    assert(round_trip::whole_box(parts[2]));
    assert(protects_by(info, format, parts[1], parts[2]));
}

// Sample entries.

/// Whether the first sinf box in a sample entry payload is the one that is put at its end.
pub open spec fn sinf_last(body: Seq<u8>, sinf: Seq<u8>) -> bool {
    forall|i: int| 0 <= i < body.len() ==> !(#[trigger] init::sinf_starts(body + sinf, i, 8))
}

proof fn lemma_sinf_stripped(
    body: Seq<u8>,
    format: Seq<u8>,
    t: Target,
    kid: Seq<u8>,
    pos: int,
)
    requires
        format.len() == 4,
        kid.len() == 16,
        sinf_last(body, init::sinf_box(format, t, kid)),
        0 <= pos <= body.len(),
    ensures
        init::entry_stripped(
            body + init::sinf_box(format, t, kid),
            pos,
            None,
            body.take(pos),
        ) == (Some(format), body),
    decreases body.len() - pos,
{
    let sinf = init::sinf_box(format, t, kid);
    let p = body + sinf;
    lemma_sinf_lengths(format, t, kid);
    if pos < body.len() {
        assert(!init::sinf_starts(p, pos, 8));
        assert(body.take(pos).push(p[pos]) =~= body.take(pos + 1));
        lemma_sinf_stripped(body, format, t, kid, pos + 1);
    } else {
        let none = SinfView {
            original_format: bytes::zeros(4),
            scheme_type: bytes::zeros(4),
            scheme_version: 0,
            tenc: None,
        };
        assert(p.subrange(pos, pos + 79) =~= sinf);
        lemma_sinf_size(p, pos, format, t, kid);
        lemma_sinf_read_back(format, t, kid, none);
        assert(init::sinf_starts(p, pos, 8));
        assert(body.take(pos) =~= body);
        assert(body + bytes::clamped(p, p.len() as int, p.len() as int) =~= body);
        assert(init::entry_stripped(p, p.len() as int, Some(format), body) == (Some(format), body));
    }
}

/// Whether protection can be put on a sample entry and taken off again: a whole box with an
/// eight-byte header, not protected yet, and without a sinf box in what it holds.
pub open spec fn neat_entry(q: Seq<u8>, t: Target, kid: Seq<u8>) -> bool {
    &&& round_trip::whole_box(q)
    &&& round_trip::head_of(q).header_size == 8
    &&& !init::is_encrypted_code(round_trip::type_of(q))
    &&& init::encrypted_code(round_trip::type_of(q)) is Some ==> sinf_last(
        round_trip::payload_of(q),
        init::sinf_box(round_trip::type_of(q), t, kid),
    )
}

/// A sample entry with protection.
spec fn locked_entry(q: Seq<u8>, t: Target, kid: Seq<u8>) -> Seq<u8> {
    match init::encrypted_code(round_trip::type_of(q)) {
        Some(code) => cmaf::boxed(
            code,
            round_trip::payload_of(q) + init::sinf_box(round_trip::type_of(q), t, kid),
        ),
        None => q,
    }
}

/// What the edit of a sample entry depends on is the entry itself.
proof fn lemma_entry_edits(
    p: Seq<u8>,
    h: BoxHeader,
    q: Seq<u8>,
    t: Target,
    kid: Seq<u8>,
)
    requires
        round_trip::stands_for(p, h, q),
        h.header_size == 8,
    ensures
        init::edited_entry(p, h, SampleEdit::Inject(t), kid) == Ok::<Seq<u8>, ErrorView>(
            locked_entry(q, t, kid),
        ),
{
    if let Some(code) = init::encrypted_code(round_trip::type_of(q)) {
        let b = round_trip::payload_of(q) + init::sinf_box(round_trip::type_of(q), t, kid);
    }
}

/// A protected code is four bytes that stand for an encrypted entry.
proof fn lemma_encrypted_code(code: Seq<u8>)
    requires
        init::encrypted_code(code) is Some,
    ensures
        code.len() == 4,
        init::encrypted_code(code)->0.len() == 4,
        init::is_encrypted_code(init::encrypted_code(code)->0),
{
}

proof fn lemma_stripped_entry(p: Seq<u8>, h: BoxHeader, code: Seq<u8>, body: Seq<u8>, other: Seq<u8>)
    requires
        init::is_encrypted_code(h.box_type@),
        h.header_size == 8,
        init::entry_stripped(cmaf::box_body(p, h), 0, None, Seq::empty()) == (Some(code), body),
    ensures
        init::edited_entry(p, h, SampleEdit::Strip, other) == Ok::<Seq<u8>, ErrorView>(
            cmaf::boxed(code, body),
        ),
{
}

proof fn lemma_sinf_comes_off(
    p: Seq<u8>,
    h: BoxHeader,
    new_code: Seq<u8>,
    code: Seq<u8>,
    body: Seq<u8>,
    t: Target,
    kid: Seq<u8>,
    other: Seq<u8>,
)
    requires
        code.len() == 4,
        kid.len() == 16,
        sinf_last(body, init::sinf_box(code, t, kid)),
        init::is_encrypted_code(new_code),
        h.box_type@ == new_code,
        h.header_size == 8,
        cmaf::box_body(p, h) == body + init::sinf_box(code, t, kid),
    ensures
        init::edited_entry(p, h, SampleEdit::Strip, other) == Ok::<Seq<u8>, ErrorView>(
            cmaf::boxed(code, body),
        ),
{
    assert(body.take(0) =~= Seq::empty());
    lemma_sinf_stripped(body, code, t, kid, 0);
    lemma_stripped_entry(p, h, code, body, other);
}

proof fn lemma_known_entry_unlocked(
    p: Seq<u8>,
    h: BoxHeader,
    q: Seq<u8>,
    t: Target,
    kid: Seq<u8>,
    other: Seq<u8>,
    new_code: Seq<u8>,
)
    requires
        round_trip::whole_box(q),
        round_trip::head_of(q).header_size == 8,
        sinf_last(
            round_trip::payload_of(q),
            init::sinf_box(round_trip::type_of(q), t, kid),
        ),
        kid.len() == 16,
        new_code.len() == 4,
        init::is_encrypted_code(new_code),
        h.box_type@ == new_code,
        h.header_size == 8,
        cmaf::box_body(p, h) == round_trip::payload_of(q) + init::sinf_box(
            round_trip::type_of(q),
            t,
            kid,
        ),
    ensures
        init::edited_entry(p, h, SampleEdit::Strip, other) == Ok::<Seq<u8>, ErrorView>(q),
{
    let code = round_trip::type_of(q);
    let body = round_trip::payload_of(q);
    lemma_sinf_comes_off(p, h, new_code, code, body, t, kid, other);
    round_trip::compact_box_is_rebuilt(q);
}

proof fn lemma_locked_reads(q: Seq<u8>, t: Target, kid: Seq<u8>)
    requires
        init::encrypted_code(round_trip::type_of(q)) is Some,
        locked_entry(q, t, kid).len() <= u32::MAX,
    ensures
        round_trip::whole_box(locked_entry(q, t, kid)),
        round_trip::type_of(locked_entry(q, t, kid)) == init::encrypted_code(
            round_trip::type_of(q),
        )->0,
        round_trip::payload_of(locked_entry(q, t, kid)) == round_trip::payload_of(q)
            + init::sinf_box(round_trip::type_of(q), t, kid),
        round_trip::head_of(locked_entry(q, t, kid)).header_size == 8,
{
    let code = round_trip::type_of(q);
    let new_code = init::encrypted_code(code)->0;
    let b = round_trip::payload_of(q) + init::sinf_box(code, t, kid);
    lemma_encrypted_code(code);
    assert(locked_entry(q, t, kid) == cmaf::boxed(new_code, b));
    round_trip::boxed_reads_back(new_code, b);
}

/// Stripping a protected sample entry gives the entry back.
proof fn lemma_entry_unlocked(
    p: Seq<u8>,
    h: BoxHeader,
    q: Seq<u8>,
    t: Target,
    kid: Seq<u8>,
    other: Seq<u8>,
)
    requires
        neat_entry(q, t, kid),
        kid.len() == 16,
        round_trip::stands_for(p, h, locked_entry(q, t, kid)),
        h.header_size == 8,
        locked_entry(q, t, kid).len() <= u32::MAX,
    ensures
        init::edited_entry(p, h, SampleEdit::Strip, other) == Ok::<Seq<u8>, ErrorView>(q),
{
    let code = round_trip::type_of(q);
    if init::encrypted_code(code) is Some {
        lemma_encrypted_code(code);
        lemma_locked_reads(q, t, kid);
        lemma_known_entry_unlocked(p, h, q, t, kid, other, init::encrypted_code(code)->0);
    }
}

proof fn lemma_locked_whole(q: Seq<u8>, t: Target, kid: Seq<u8>)
    requires
        neat_entry(q, t, kid),
        locked_entry(q, t, kid).len() <= u32::MAX,
    ensures
        round_trip::whole_box(locked_entry(q, t, kid)),
        round_trip::head_of(locked_entry(q, t, kid)).header_size == 8,
{
    if init::encrypted_code(round_trip::type_of(q)) is Some {
        lemma_locked_reads(q, t, kid);
    }
}

// The sample description.

/// Entry `k` of a sample description is read where it stands.
pub proof fn lemma_entry_place(p: Seq<u8>, head: Seq<u8>, parts: Seq<Seq<u8>>, k: nat)
    requires
        p == head + cmaf::joined(parts, parts.len()),
        p.len() <= u64::MAX,
        k < parts.len(),
        round_trip::whole_box(parts[k as int]),
    ensures
        ({
            let off = head.len() + cmaf::joined(parts, k).len();
            &&& off + 8 <= p.len()
            &&& match cmaf::header_at(p, off as int) {
                Ok(h) => round_trip::stands_for(p, h, parts[k as int]) && h.size
                    == parts[k as int].len() && h.header_size == round_trip::head_of(
                    parts[k as int],
                ).header_size,
                Err(_) => false,
            }
        }),
{
    round_trip::lemma_joined_splits(parts, k, parts.len());
    let after = choose|after: Seq<u8>|
        cmaf::joined(parts, parts.len()) == #[trigger] (cmaf::joined(parts, k) + parts[k as int]
            + after);
    let before = head + cmaf::joined(parts, k);
    assert(p =~= before + parts[k as int] + after);
    round_trip::lemma_header_moves(before, parts[k as int], after);
}

/// Whether the edit makes `new` of entry `k` of a sample description.
spec fn entry_becomes(
    p: Seq<u8>,
    head: Seq<u8>,
    parts: Seq<Seq<u8>>,
    k: int,
    edit: SampleEdit,
    kid: Seq<u8>,
    new: Seq<u8>,
) -> bool {
    match cmaf::header_at(p, (head.len() + cmaf::joined(parts, k as nat).len()) as int) {
        Ok(h) => init::edited_entry(p, h, edit, kid) == Ok::<Seq<u8>, ErrorView>(new),
        Err(_) => false,
    }
}

#[verifier::spinoff_prover]
#[verifier::rlimit(60)]
proof fn lemma_entries_become(
    p: Seq<u8>,
    head: Seq<u8>,
    parts: Seq<Seq<u8>>,
    k: nat,
    edit: SampleEdit,
    kid: Seq<u8>,
    new: Seq<Seq<u8>>,
)
    requires
        p == head + cmaf::joined(parts, parts.len()),
        p.len() <= u64::MAX,
        k <= parts.len(),
        new.len() == parts.len(),
        forall|i: int| 0 <= i < parts.len() ==> round_trip::whole_box(#[trigger] parts[i]),
        forall|i: int|
            0 <= i < parts.len() ==> #[trigger] entry_becomes(p, head, parts, i, edit, kid, new[i]),
    ensures
        init::stsd_entries(
            p,
            (head.len() + cmaf::joined(parts, k).len()) as int,
            (parts.len() - k) as nat,
            edit,
            kid,
            cmaf::joined(new, k),
        ) == Ok::<Seq<u8>, ErrorView>(cmaf::joined(new, new.len())),
    decreases parts.len() - k,
{
    if k < parts.len() {
        assert(round_trip::whole_box(parts[k as int]));
        assert(entry_becomes(p, head, parts, k as int, edit, kid, new[k as int]));
        lemma_entry_place(p, head, parts, k);
        lemma_entries_become(p, head, parts, k + 1, edit, kid, new);
    }
}

/// Whether protection can be put on the entries of a sample description and taken off again:
/// as many whole entries as it counts, each of them fit for it.
pub open spec fn neat_stsd(p: Seq<u8>, t: Target, kid: Seq<u8>) -> bool {
    &&& 8 <= p.len()
    &&& round_trip::whole_boxes(p.skip(8))
    &&& round_trip::boxes_of(p.skip(8)).len() == bytes::be32(p, 4)
    &&& forall|k: int|
        0 <= k < round_trip::boxes_of(p.skip(8)).len() ==> neat_entry(
            #[trigger] round_trip::boxes_of(p.skip(8))[k],
            t,
            kid,
        )
}

/// The protected entries of a sample description.
spec fn locked_entries(p: Seq<u8>, t: Target, kid: Seq<u8>) -> Seq<Seq<u8>> {
    round_trip::boxes_of(p.skip(8)).map_values(|q: Seq<u8>| locked_entry(q, t, kid))
}

/// The payload of a sample description whose entries are protected.
spec fn locked_stsd(p: Seq<u8>, t: Target, kid: Seq<u8>) -> Seq<u8> {
    let new = locked_entries(p, t, kid);
    p.subrange(0, 4) + bytes::bytes32(bytes::be32(p, 4)) + cmaf::joined(new, new.len())
}

/// Putting protection on the entries of a sample description.
proof fn lemma_stsd_locked(s: Seq<u8>, h: BoxHeader, t: Target, kid: Seq<u8>)
    requires
        neat_stsd(cmaf::box_body(s, h), t, kid),
        cmaf::box_body(s, h).len() <= u64::MAX,
    ensures
        init::edited_stsd(s, h, SampleEdit::Inject(t), kid) == Ok::<Seq<u8>, ErrorView>(
            cmaf::boxed(box_type::STSD@, locked_stsd(cmaf::box_body(s, h), t, kid)),
        ),
{
    let p = cmaf::box_body(s, h);
    let head = p.take(8);
    let parts = round_trip::boxes_of(p.skip(8));
    let new = locked_entries(p, t, kid);
    let edit = SampleEdit::Inject(t);
    assert(round_trip::made_of(p.skip(8), parts));
    assert(p =~= head + cmaf::joined(parts, parts.len()));
    assert forall|i: int| 0 <= i < parts.len() implies #[trigger] entry_becomes(
        p,
        head,
        parts,
        i,
        edit,
        kid,
        new[i],
    ) by {
        assert(neat_entry(parts[i], t, kid));
        lemma_entry_place(p, head, parts, i as nat);
        let e = cmaf::header_at(p, (head.len() + cmaf::joined(parts, i as nat).len()) as int);
        lemma_entry_edits(p, e->Ok_0, parts[i], t, kid);
    }
    lemma_entries_become(p, head, parts, 0, edit, kid, new);
}

/// The protected entries of a sample description are whole boxes with eight-byte headers.
proof fn lemma_locked_entries(p: Seq<u8>, t: Target, kid: Seq<u8>, i: int)
    requires
        neat_stsd(p, t, kid),
        locked_stsd(p, t, kid).len() <= u32::MAX,
        0 <= i < locked_entries(p, t, kid).len(),
    ensures
        ({
            let q = round_trip::boxes_of(p.skip(8))[i];
            let new = locked_entries(p, t, kid)[i];
            &&& neat_entry(q, t, kid)
            &&& new == locked_entry(q, t, kid)
            &&& round_trip::whole_box(new)
            &&& round_trip::head_of(new).header_size == 8
            &&& new.len() <= u32::MAX
        }),
{
    let new = locked_entries(p, t, kid);
    round_trip::lemma_part_length(new, i, new.len());
    lemma_locked_whole(round_trip::boxes_of(p.skip(8))[i], t, kid);
}

/// A sample description is its version and flags, its entry count and its entries.
proof fn lemma_stsd_parts(p: Seq<u8>, q: Seq<u8>, entries: Seq<u8>)
    requires
        8 <= p.len(),
        q == p.subrange(0, 4) + bytes::bytes32(bytes::be32(p, 4)) + entries,
    ensures
        bytes::be32(q, 4) == bytes::be32(p, 4),
        q.subrange(0, 4) == p.subrange(0, 4),
        p.subrange(0, 4) + bytes::bytes32(bytes::be32(p, 4)) + p.skip(8) == p,
{
    assert(q.subrange(4, 8) =~= bytes::bytes32(bytes::be32(p, 4)));
    bytes::lemma_be32_of_bytes32(q, 4, bytes::be32(p, 4));
    bytes::lemma_bytes32_of_be32(p, 4);
    assert(q.subrange(0, 4) =~= p.subrange(0, 4));
    assert(p.subrange(0, 4) + p.subrange(4, 8) + p.skip(8) =~= p);
}

proof fn lemma_entries_unlocked(p: Seq<u8>, t: Target, kid: Seq<u8>, other: Seq<u8>)
    requires
        neat_stsd(p, t, kid),
        kid.len() == 16,
        locked_stsd(p, t, kid).len() <= u32::MAX,
    ensures
        init::stsd_entries(
            locked_stsd(p, t, kid),
            8,
            locked_entries(p, t, kid).len(),
            SampleEdit::Strip,
            other,
            Seq::empty(),
        ) == Ok::<Seq<u8>, ErrorView>(p.skip(8)),
{
    let parts = round_trip::boxes_of(p.skip(8));
    let new = locked_entries(p, t, kid);
    let q = locked_stsd(p, t, kid);
    let head = p.subrange(0, 4) + bytes::bytes32(bytes::be32(p, 4));
    assert(round_trip::made_of(p.skip(8), parts));
    assert forall|i: int| 0 <= i < new.len() implies round_trip::whole_box(#[trigger] new[i]) by {
        lemma_locked_entries(p, t, kid, i);
    }
    assert forall|i: int| 0 <= i < new.len() implies #[trigger] entry_becomes(
        q,
        head,
        new,
        i,
        SampleEdit::Strip,
        other,
        parts[i],
    ) by {
        lemma_locked_entries(p, t, kid, i);
        lemma_entry_place(q, head, new, i as nat);
        let e = cmaf::header_at(q, (head.len() + cmaf::joined(new, i as nat).len()) as int);
        lemma_entry_unlocked(q, e->Ok_0, parts[i], t, kid, other);
    }
    lemma_entries_become(q, head, new, 0, SampleEdit::Strip, other, parts);
}

/// Stripping a sample description whose entries got protection gives it back.
proof fn lemma_stsd_unlocked(
    s: Seq<u8>,
    h: BoxHeader,
    p: Seq<u8>,
    t: Target,
    kid: Seq<u8>,
    other: Seq<u8>,
)
    requires
        neat_stsd(p, t, kid),
        kid.len() == 16,
        cmaf::box_body(s, h) == locked_stsd(p, t, kid),
        locked_stsd(p, t, kid).len() <= u32::MAX,
    ensures
        init::edited_stsd(s, h, SampleEdit::Strip, other) == Ok::<Seq<u8>, ErrorView>(
            cmaf::boxed(box_type::STSD@, p),
        ),
{
    let new = locked_entries(p, t, kid);
    lemma_stsd_parts(p, locked_stsd(p, t, kid), cmaf::joined(new, new.len()));
    lemma_entries_unlocked(p, t, kid, other);
}

// Containers.

/// Whether a box holds boxes below which sample descriptions are looked for.
pub open spec fn holds_boxes(code: Seq<u8>) -> bool {
    code == box_type::MDIA@ || code == box_type::MINF@ || code == box_type::STBL@
}

/// Whether protection can be put on the sample entries below a container and taken off again:
/// the container is a run of whole boxes, those that are rebuilt have eight-byte headers, and
/// the sample descriptions are fit for it.
pub open spec fn neat(s: Seq<u8>, t: Target, kid: Seq<u8>) -> bool
    decreases s.len(),
{
    &&& round_trip::whole_boxes(s)
    &&& forall|k: int| #![trigger round_trip::boxes_of(s)[k]]
        0 <= k < round_trip::boxes_of(s).len() ==> {
            let p = round_trip::boxes_of(s)[k];
            let body = round_trip::payload_of(p);
            &&& holds_boxes(round_trip::type_of(p)) ==> round_trip::head_of(p).header_size == 8
                && body.len() < s.len() && neat(body, t, kid)
            &&& round_trip::type_of(p) == box_type::STSD@ ==> round_trip::head_of(p).header_size
                == 8 && neat_stsd(body, t, kid)
        }
}

/// The first `n` children of a container, with protection on the sample entries below them.
spec fn locked_children(s: Seq<u8>, n: nat, t: Target, kid: Seq<u8>) -> Seq<u8>
    decreases s.len(), n,
{
    if n == 0 {
        Seq::empty()
    } else {
        let p = round_trip::boxes_of(s)[n - 1];
        let body = round_trip::payload_of(p);
        locked_children(s, (n - 1) as nat, t, kid) + (if holds_boxes(round_trip::type_of(p)) {
            if body.len() < s.len() {
                cmaf::boxed(
                    round_trip::type_of(p),
                    locked_children(body, round_trip::boxes_of(body).len(), t, kid),
                )
            } else {
                p
            }
        } else if round_trip::type_of(p) == box_type::STSD@ {
            cmaf::boxed(box_type::STSD@, locked_stsd(body, t, kid))
        } else {
            p
        })
    }
}

/// The payload of a container below which the sample entries got protection.
spec fn locked(s: Seq<u8>, t: Target, kid: Seq<u8>) -> Seq<u8> {
    locked_children(s, round_trip::boxes_of(s).len(), t, kid)
}

/// A child of a container below which the sample entries got protection.
spec fn locked_part(p: Seq<u8>, t: Target, kid: Seq<u8>) -> Seq<u8> {
    let body = round_trip::payload_of(p);
    if holds_boxes(round_trip::type_of(p)) {
        cmaf::boxed(round_trip::type_of(p), locked(body, t, kid))
    } else if round_trip::type_of(p) == box_type::STSD@ {
        cmaf::boxed(box_type::STSD@, locked_stsd(body, t, kid))
    } else {
        p
    }
}

/// The children of a container below which the sample entries got protection.
spec fn locked_parts(s: Seq<u8>, t: Target, kid: Seq<u8>) -> Seq<Seq<u8>> {
    round_trip::boxes_of(s).map_values(|p: Seq<u8>| locked_part(p, t, kid))
}

proof fn lemma_locked(s: Seq<u8>, n: nat, t: Target, kid: Seq<u8>)
    requires
        neat(s, t, kid),
        n <= round_trip::boxes_of(s).len(),
    ensures
        locked_children(s, n, t, kid) == cmaf::joined(locked_parts(s, t, kid), n),
    decreases n,
{
    if n > 0 {
        lemma_locked(s, (n - 1) as nat, t, kid);
        let p = round_trip::boxes_of(s)[n - 1];
        assert(locked_parts(s, t, kid)[n - 1] == locked_part(p, t, kid));
    }
}

/// Whether the edit makes `new` of the box `h` of a container.
spec fn part_becomes(s: Seq<u8>, h: BoxHeader, edit: SampleEdit, kid: Seq<u8>, new: Seq<u8>) -> bool {
    if init::descends(edit, h.box_type@) {
        match init::edited_children(cmaf::box_body(s, h), 0, edit, kid, Seq::empty()) {
            Ok(c) => new == cmaf::boxed(h.box_type@, c),
            Err(_) => false,
        }
    } else if h.box_type@ == box_type::STSD@ {
        init::edited_stsd(s, h, edit, kid) == Ok::<Seq<u8>, ErrorView>(new)
    } else {
        new == cmaf::box_bytes(s, h)
    }
}

proof fn lemma_parts_become(
    s: Seq<u8>,
    parts: Seq<Seq<u8>>,
    k: nat,
    edit: SampleEdit,
    kid: Seq<u8>,
    new: Seq<Seq<u8>>,
)
    requires
        round_trip::made_of(s, parts),
        s.len() <= u64::MAX,
        k <= parts.len(),
        new.len() == parts.len(),
        forall|i: int|
            0 <= i < parts.len() ==> #[trigger] part_becomes(
                s,
                cmaf::run(s).headers[i],
                edit,
                kid,
                new[i],
            ),
    ensures
        init::edited_children(s, k as int, edit, kid, cmaf::joined(new, k)) == Ok::<
            Seq<u8>,
            ErrorView,
        >(cmaf::joined(new, new.len())),
    decreases parts.len() - k,
{
    round_trip::run_hands_out_every_box(s, parts);
    if k < parts.len() {
        assert(part_becomes(s, cmaf::run(s).headers[k as int], edit, kid, new[k as int]));
        lemma_parts_become(s, parts, k + 1, edit, kid, new);
    }
}

/// The children of a container that is fit for protection.
proof fn lemma_neat_child(s: Seq<u8>, t: Target, kid: Seq<u8>, k: int)
    requires
        neat(s, t, kid),
        0 <= k < round_trip::boxes_of(s).len(),
    ensures
        ({
            let p = round_trip::boxes_of(s)[k];
            let body = round_trip::payload_of(p);
            &&& round_trip::made_of(s, round_trip::boxes_of(s))
            &&& round_trip::whole_box(p)
            &&& p.len() <= s.len()
            &&& body.len() < p.len()
            &&& holds_boxes(round_trip::type_of(p)) ==> round_trip::head_of(p).header_size == 8
                && body.len() < s.len() && neat(body, t, kid)
            &&& round_trip::type_of(p) == box_type::STSD@ ==> round_trip::head_of(p).header_size
                == 8 && neat_stsd(body, t, kid)
        }),
{
    let parts = round_trip::boxes_of(s);
    assert(round_trip::made_of(s, parts));
    assert(round_trip::whole_box(parts[k]));
    round_trip::lemma_whole_box(parts[k]);
    round_trip::lemma_part_length(parts, k, parts.len());
}

proof fn lemma_container_locked(s: Seq<u8>, t: Target, kid: Seq<u8>)
    requires
        neat(s, t, kid),
        s.len() <= u64::MAX,
    ensures
        init::edited_children(s, 0, SampleEdit::Inject(t), kid, Seq::empty()) == Ok::<
            Seq<u8>,
            ErrorView,
        >(locked(s, t, kid)),
    decreases s.len(),
{
    let parts = round_trip::boxes_of(s);
    let new = locked_parts(s, t, kid);
    let edit = SampleEdit::Inject(t);
    assert(round_trip::made_of(s, parts));
    round_trip::run_hands_out_every_box(s, parts);
    assert forall|i: int| 0 <= i < parts.len() implies #[trigger] part_becomes(
        s,
        cmaf::run(s).headers[i],
        edit,
        kid,
        new[i],
    ) by {
        let p = parts[i];
        let h = cmaf::run(s).headers[i];
        let body = round_trip::payload_of(p);
        assert(round_trip::stands_for(s, h, p));
        assert(new[i] == locked_part(p, t, kid));
        lemma_neat_child(s, t, kid, i);
        if holds_boxes(round_trip::type_of(p)) {
            lemma_container_locked(body, t, kid);
        } else if round_trip::type_of(p) == box_type::STSD@ {
            lemma_stsd_locked(s, h, t, kid);
        }
    }
    lemma_parts_become(s, parts, 0, edit, kid, new);
    lemma_locked(s, parts.len(), t, kid);
}

/// The child of a container below which the sample entries got protection is a whole box of
/// the same type.
proof fn lemma_locked_part(s: Seq<u8>, t: Target, kid: Seq<u8>, k: int)
    requires
        neat(s, t, kid),
        0 <= k < round_trip::boxes_of(s).len(),
        locked(s, t, kid).len() <= u32::MAX,
    ensures
        ({
            let p = round_trip::boxes_of(s)[k];
            let body = round_trip::payload_of(p);
            let q = locked_parts(s, t, kid)[k];
            &&& round_trip::whole_box(q)
            &&& round_trip::type_of(q) == round_trip::type_of(p)
            &&& holds_boxes(round_trip::type_of(p)) ==> round_trip::payload_of(q) == locked(
                body,
                t,
                kid,
            ) && locked(body, t, kid).len() <= u32::MAX
            &&& round_trip::type_of(p) == box_type::STSD@ ==> round_trip::payload_of(q)
                == locked_stsd(body, t, kid) && locked_stsd(body, t, kid).len() <= u32::MAX
            &&& !holds_boxes(round_trip::type_of(p)) && round_trip::type_of(p) != box_type::STSD@
                ==> q == p
        }),
{
    let p = round_trip::boxes_of(s)[k];
    let body = round_trip::payload_of(p);
    let new = locked_parts(s, t, kid);
    lemma_neat_child(s, t, kid, k);
    lemma_locked(s, new.len(), t, kid);
    round_trip::lemma_part_length(new, k, new.len());
    lemma_container_codes();
    assert(new[k] == locked_part(p, t, kid));
    if holds_boxes(round_trip::type_of(p)) {
        assert(new[k].len() == locked(body, t, kid).len() + 8);
        round_trip::boxed_reads_back(round_trip::type_of(p), locked(body, t, kid));
    } else if round_trip::type_of(p) == box_type::STSD@ {
        assert(new[k].len() == locked_stsd(body, t, kid).len() + 8);
        round_trip::boxed_reads_back(box_type::STSD@, locked_stsd(body, t, kid));
    }
}

proof fn lemma_container_codes()
    ensures
        !holds_boxes(box_type::STSD@),
        box_type::TRAK@ != box_type::PSSH@,
        box_type::FTYP@ != box_type::MOOV@,
{
    assert(box_type::STSD@[0] != box_type::MDIA@[0]);
    assert(box_type::STSD@[0] != box_type::MINF@[0]);
    assert(box_type::STSD@[1] != box_type::STBL@[1] || box_type::STSD@[2] != box_type::STBL@[2]);
    assert(box_type::TRAK@[0] != box_type::PSSH@[0]);
    assert(box_type::FTYP@[0] != box_type::MOOV@[0]);
}

proof fn lemma_container_unlocked(s: Seq<u8>, t: Target, kid: Seq<u8>, other: Seq<u8>)
    requires
        neat(s, t, kid),
        kid.len() == 16,
        locked(s, t, kid).len() <= u32::MAX,
    ensures
        init::edited_children(
            locked(s, t, kid),
            0,
            SampleEdit::Strip,
            other,
            Seq::empty(),
        ) == Ok::<Seq<u8>, ErrorView>(s),
    decreases s.len(),
{
    let parts = round_trip::boxes_of(s);
    let new = locked_parts(s, t, kid);
    let c = locked(s, t, kid);
    let edit = SampleEdit::Strip;
    assert(round_trip::made_of(s, parts));
    lemma_locked(s, parts.len(), t, kid);
    assert forall|i: int| 0 <= i < new.len() implies round_trip::whole_box(#[trigger] new[i]) by {
        lemma_locked_part(s, t, kid, i);
    }
    assert(round_trip::made_of(c, new));
    round_trip::run_hands_out_every_box(c, new);
    assert forall|i: int| 0 <= i < new.len() implies #[trigger] part_becomes(
        c,
        cmaf::run(c).headers[i],
        edit,
        other,
        parts[i],
    ) by {
        let p = parts[i];
        let h = cmaf::run(c).headers[i];
        let body = round_trip::payload_of(p);
        assert(round_trip::stands_for(c, h, new[i]));
        lemma_neat_child(s, t, kid, i);
        lemma_locked_part(s, t, kid, i);
        if holds_boxes(round_trip::type_of(p)) {
            lemma_container_unlocked(body, t, kid, other);
            round_trip::compact_box_is_rebuilt(p);
        } else if round_trip::type_of(p) == box_type::STSD@ {
            lemma_container_codes();
            lemma_stsd_unlocked(c, h, body, t, kid, other);
            round_trip::compact_box_is_rebuilt(p);
        }
    }
    lemma_parts_become(c, new, 0, edit, other, parts);
}

// The movie box.

/// Whether every key of a mapping has sixteen bytes.
pub open spec fn full_keys(mapping: Seq<(TrackType, Seq<u8>)>) -> bool {
    forall|k: int| 0 <= k < mapping.len() ==> (#[trigger] mapping[k]).1.len() == 16
}

proof fn lemma_key_length(mapping: Seq<(TrackType, Seq<u8>)>, track: TrackType, i: int)
    requires
        full_keys(mapping),
        0 <= i,
    ensures
        codec::lookup(mapping, track, i) matches Some(k) ==> k.len() == 16,
    decreases mapping.len() - i,
{
    if i < mapping.len() {
        assert(mapping[i].1.len() == 16);
        lemma_key_length(mapping, track, i + 1);
    }
}

pub proof fn lemma_track_kid(body: Seq<u8>, mapping: Seq<(TrackType, Seq<u8>)>)
    requires
        full_keys(mapping),
    ensures
        init::track_kid(body, mapping).len() == 16,
{
    lemma_key_length(mapping, init::track_type_of(body), 0);
    if mapping.len() > 0 {
        assert(mapping[0].1.len() == 16);
    }
}

/// Whether protection can be put on the tracks of a movie box and taken off again: a run of
/// whole boxes without protection headers, whose tracks have eight-byte headers and are fit
/// for it.
pub open spec fn neat_moov(s: Seq<u8>, t: Target, mapping: Seq<(TrackType, Seq<u8>)>) -> bool {
    &&& round_trip::whole_boxes(s)
    &&& forall|k: int| #![trigger round_trip::boxes_of(s)[k]]
        0 <= k < round_trip::boxes_of(s).len() ==> {
            let p = round_trip::boxes_of(s)[k];
            let body = round_trip::payload_of(p);
            &&& round_trip::type_of(p) != box_type::PSSH@
            &&& round_trip::type_of(p) == box_type::TRAK@ ==> round_trip::head_of(p).header_size
                == 8 && neat(body, t, init::track_kid(body, mapping))
        }
}

/// Whether the edit makes `piece` of the box `h` of a movie box.
spec fn moov_piece(
    s: Seq<u8>,
    h: BoxHeader,
    edit: SampleEdit,
    mapping: Seq<(TrackType, Seq<u8>)>,
    piece: Seq<u8>,
) -> bool {
    if h.box_type@ == box_type::TRAK@ {
        init::edited_trak(cmaf::box_body(s, h), edit, mapping) == Ok::<Seq<u8>, ErrorView>(piece)
    } else if h.box_type@ == box_type::PSSH@ && edit is Strip {
        piece == Seq::<u8>::empty()
    } else {
        piece == cmaf::box_bytes(s, h)
    }
}

proof fn lemma_moov_pieces(
    s: Seq<u8>,
    parts: Seq<Seq<u8>>,
    k: nat,
    edit: SampleEdit,
    mapping: Seq<(TrackType, Seq<u8>)>,
    pssh: Seq<u8>,
    pieces: Seq<Seq<u8>>,
)
    requires
        !(edit is Rewrite),
        round_trip::made_of(s, parts),
        s.len() <= u64::MAX,
        k <= parts.len(),
        pieces.len() == parts.len(),
        forall|i: int|
            0 <= i < parts.len() ==> #[trigger] moov_piece(
                s,
                cmaf::run(s).headers[i],
                edit,
                mapping,
                pieces[i],
            ),
    ensures
        init::moov_children(s, k as int, edit, mapping, pssh, false, cmaf::joined(pieces, k))
            == Ok::<Seq<u8>, ErrorView>(
            if edit is Inject {
                cmaf::joined(pieces, pieces.len()) + pssh
            } else {
                cmaf::joined(pieces, pieces.len())
            },
        ),
    decreases parts.len() - k,
{
    round_trip::run_hands_out_every_box(s, parts);
    if k < parts.len() {
        let h = cmaf::run(s).headers[k as int];
        assert(moov_piece(s, h, edit, mapping, pieces[k as int]));
        lemma_container_codes();
        assert(cmaf::joined(pieces, k) + Seq::<u8>::empty() =~= cmaf::joined(pieces, k));
        lemma_moov_pieces(s, parts, k + 1, edit, mapping, pssh, pieces);
    }
}

/// A child of a movie box whose tracks got protection.
spec fn locked_trak(
    p: Seq<u8>,
    t: Target,
    mapping: Seq<(TrackType, Seq<u8>)>,
) -> Seq<u8> {
    let body = round_trip::payload_of(p);
    if round_trip::type_of(p) == box_type::TRAK@ {
        cmaf::boxed(box_type::TRAK@, locked(body, t, init::track_kid(body, mapping)))
    } else {
        p
    }
}

/// The children of a movie box whose tracks got protection.
spec fn locked_traks(s: Seq<u8>, t: Target, mapping: Seq<(TrackType, Seq<u8>)>) -> Seq<Seq<u8>> {
    round_trip::boxes_of(s).map_values(|p: Seq<u8>| locked_trak(p, t, mapping))
}

/// The payload of a movie box whose tracks got protection.
spec fn locked_moov(
    s: Seq<u8>,
    t: Target,
    mapping: Seq<(TrackType, Seq<u8>)>,
    pssh: Seq<u8>,
) -> Seq<u8> {
    let new = locked_traks(s, t, mapping);
    cmaf::joined(new, new.len()) + pssh
}

proof fn lemma_moov_locked(
    s: Seq<u8>,
    t: Target,
    mapping: Seq<(TrackType, Seq<u8>)>,
    pssh: Seq<u8>,
)
    requires
        neat_moov(s, t, mapping),
        s.len() <= u64::MAX,
    ensures
        init::edited_moov(s, SampleEdit::Inject(t), mapping, pssh) == Ok::<Seq<u8>, ErrorView>(
            cmaf::boxed(box_type::MOOV@, locked_moov(s, t, mapping, pssh)),
        ),
{
    let parts = round_trip::boxes_of(s);
    let new = locked_traks(s, t, mapping);
    let edit = SampleEdit::Inject(t);
    assert(round_trip::made_of(s, parts));
    round_trip::run_hands_out_every_box(s, parts);
    assert forall|i: int| 0 <= i < parts.len() implies #[trigger] moov_piece(
        s,
        cmaf::run(s).headers[i],
        edit,
        mapping,
        new[i],
    ) by {
        let p = parts[i];
        let body = round_trip::payload_of(p);
        assert(round_trip::stands_for(s, cmaf::run(s).headers[i], p));
        assert(new[i] == locked_trak(p, t, mapping));
        assert(round_trip::whole_box(p));
        round_trip::lemma_part_length(parts, i, parts.len());
        if round_trip::type_of(p) == box_type::TRAK@ {
            lemma_container_locked(body, t, init::track_kid(body, mapping));
        }
    }
    lemma_moov_pieces(s, parts, 0, edit, mapping, pssh, new);
}

/// One run of boxes after another is the run of all of them.
proof fn lemma_joined_both(a: Seq<Seq<u8>>, b: Seq<Seq<u8>>, n: nat)
    requires
        n <= b.len(),
    ensures
        cmaf::joined(a + b, a.len() + n) == cmaf::joined(a, a.len()) + cmaf::joined(b, n),
    decreases n,
{
    if n == 0 {
        round_trip::lemma_joined_same(a + b, a, a.len());
        assert(cmaf::joined(a, a.len()) + Seq::<u8>::empty() =~= cmaf::joined(a, a.len()));
    } else {
        lemma_joined_both(a, b, (n - 1) as nat);
        assert((a + b)[a.len() + n - 1] == b[n - 1]);
        assert(cmaf::joined(a + b, a.len() + n) =~= cmaf::joined(a, a.len()) + cmaf::joined(b, n));
    }
}

proof fn lemma_joined_nothing(parts: Seq<Seq<u8>>, n: nat)
    requires
        n <= parts.len(),
        forall|k: int| 0 <= k < parts.len() ==> #[trigger] parts[k] == Seq::<u8>::empty(),
    ensures
        cmaf::joined(parts, n) == Seq::<u8>::empty(),
    decreases n,
{
    if n > 0 {
        lemma_joined_nothing(parts, (n - 1) as nat);
        assert(parts[n - 1] == Seq::<u8>::empty());
    }
}

/// A movie box whose tracks got protection is a run of whole boxes: its own, then the
/// protection headers.
proof fn lemma_locked_moov_boxes(
    s: Seq<u8>,
    t: Target,
    mapping: Seq<(TrackType, Seq<u8>)>,
    headers: Seq<Seq<u8>>,
)
    requires
        neat_moov(s, t, mapping),
        forall|k: int| 0 <= k < headers.len() ==> round_trip::whole_box(#[trigger] headers[k]),
        locked_moov(s, t, mapping, cmaf::joined(headers, headers.len())).len() <= u32::MAX,
    ensures
        round_trip::made_of(
            locked_moov(s, t, mapping, cmaf::joined(headers, headers.len())),
            locked_traks(s, t, mapping) + headers,
        ),
        forall|k: int| #![trigger round_trip::boxes_of(s)[k]]
            0 <= k < round_trip::boxes_of(s).len() ==> {
                let p = round_trip::boxes_of(s)[k];
                let body = round_trip::payload_of(p);
                let kid = init::track_kid(body, mapping);
                let q = locked_traks(s, t, mapping)[k];
                &&& round_trip::type_of(q) == round_trip::type_of(p)
                &&& round_trip::type_of(p) == box_type::TRAK@ ==> round_trip::payload_of(q)
                    == locked(body, t, kid) && locked(body, t, kid).len() <= u32::MAX
                &&& round_trip::type_of(p) != box_type::TRAK@ ==> q == p
            },
{
    let parts = round_trip::boxes_of(s);
    let new = locked_traks(s, t, mapping);
    assert(round_trip::made_of(s, parts));
    lemma_joined_both(new, headers, headers.len());
    assert forall|k: int| #![trigger round_trip::boxes_of(s)[k]] 0 <= k < parts.len() implies {
        let p = round_trip::boxes_of(s)[k];
        let body = round_trip::payload_of(p);
        let kid = init::track_kid(body, mapping);
        let q = locked_traks(s, t, mapping)[k];
        &&& round_trip::whole_box(q)
        &&& round_trip::type_of(q) == round_trip::type_of(p)
        &&& round_trip::type_of(p) == box_type::TRAK@ ==> round_trip::payload_of(q) == locked(
            body,
            t,
            kid,
        ) && locked(body, t, kid).len() <= u32::MAX
        &&& round_trip::type_of(p) != box_type::TRAK@ ==> q == p
    } by {
        let p = parts[k];
        let body = round_trip::payload_of(p);
        let kid = init::track_kid(body, mapping);
        assert(round_trip::whole_box(p));
        assert(new[k] == locked_trak(p, t, mapping));
        round_trip::lemma_part_length(new, k, new.len());
        if round_trip::type_of(p) == box_type::TRAK@ {
            assert(new[k].len() == locked(body, t, kid).len() + 8);
            round_trip::boxed_reads_back(box_type::TRAK@, locked(body, t, kid));
        }
    }
    assert forall|k: int| 0 <= k < (new + headers).len() implies round_trip::whole_box(
        #[trigger] (new + headers)[k],
    ) by {
        if k < new.len() {
            assert((new + headers)[k] == new[k]);
            assert(parts[k] == round_trip::boxes_of(s)[k]);
        } else {
            assert((new + headers)[k] == headers[k - new.len()]);
        }
    }
}

/// Stripping a track that got protection gives it back.
proof fn lemma_trak_unlocked(
    c: Seq<u8>,
    h: BoxHeader,
    p: Seq<u8>,
    t: Target,
    kid: Seq<u8>,
    other: Seq<(TrackType, Seq<u8>)>,
)
    requires
        round_trip::whole_box(p),
        round_trip::head_of(p).header_size == 8,
        round_trip::type_of(p) == box_type::TRAK@,
        neat(round_trip::payload_of(p), t, kid),
        kid.len() == 16,
        h.box_type@ == box_type::TRAK@,
        cmaf::box_body(c, h) == locked(round_trip::payload_of(p), t, kid),
        locked(round_trip::payload_of(p), t, kid).len() <= u32::MAX,
    ensures
        moov_piece(c, h, SampleEdit::Strip, other, p),
{
    lemma_container_unlocked(round_trip::payload_of(p), t, kid, bytes::zeros(16));
    round_trip::compact_box_is_rebuilt(p);
}

proof fn lemma_joined_with_nothing(parts: Seq<Seq<u8>>, n: nat)
    ensures
        ({
            let pieces = parts + Seq::new(n, |k: int| Seq::<u8>::empty());
            cmaf::joined(pieces, pieces.len()) == cmaf::joined(parts, parts.len())
        }),
{
    let gone = Seq::new(n, |k: int| Seq::<u8>::empty());
    lemma_joined_both(parts, gone, gone.len());
    lemma_joined_nothing(gone, gone.len());
    let all = cmaf::joined(parts, parts.len());
    assert(all + Seq::<u8>::empty() =~= all);
}

/// Stripping a movie box whose tracks got protection gives it back.
#[verifier::rlimit(60)]
proof fn lemma_moov_unlocked(
    s: Seq<u8>,
    t: Target,
    mapping: Seq<(TrackType, Seq<u8>)>,
    headers: Seq<Seq<u8>>,
    other: Seq<(TrackType, Seq<u8>)>,
)
    requires
        neat_moov(s, t, mapping),
        full_keys(mapping),
        forall|k: int|
            0 <= k < headers.len() ==> round_trip::whole_box(#[trigger] headers[k])
                && round_trip::type_of(headers[k]) == box_type::PSSH@,
        locked_moov(s, t, mapping, cmaf::joined(headers, headers.len())).len() <= u32::MAX,
    ensures
        init::edited_moov(
            locked_moov(s, t, mapping, cmaf::joined(headers, headers.len())),
            SampleEdit::Strip,
            other,
            Seq::empty(),
        ) == Ok::<Seq<u8>, ErrorView>(cmaf::boxed(box_type::MOOV@, s)),
{
    let parts = round_trip::boxes_of(s);
    let new = locked_traks(s, t, mapping) + headers;
    let c = locked_moov(s, t, mapping, cmaf::joined(headers, headers.len()));
    let gone = Seq::new(headers.len(), |k: int| Seq::<u8>::empty());
    let pieces = parts + gone;
    let edit = SampleEdit::Strip;
    assert(round_trip::made_of(s, parts));
    lemma_locked_moov_boxes(s, t, mapping, headers);
    round_trip::run_hands_out_every_box(c, new);
    lemma_container_codes();
    assert forall|i: int| 0 <= i < new.len() implies #[trigger] moov_piece(
        c,
        cmaf::run(c).headers[i],
        edit,
        other,
        pieces[i],
    ) by {
        let h = cmaf::run(c).headers[i];
        assert(round_trip::stands_for(c, h, new[i]));
        if i < parts.len() {
            let p = parts[i];
            let body = round_trip::payload_of(p);
            let kid = init::track_kid(body, mapping);
            assert(pieces[i] == p);
            assert(new[i] == locked_traks(s, t, mapping)[i]);
            assert(p == round_trip::boxes_of(s)[i]);
            if round_trip::type_of(p) == box_type::TRAK@ {
                assert(round_trip::whole_box(p));
                lemma_track_kid(body, mapping);
                lemma_trak_unlocked(c, h, p, t, kid, other);
            }
        } else {
            assert(new[i] == headers[i - parts.len()]);
            assert(pieces[i] == Seq::<u8>::empty());
        }
    }
    lemma_moov_pieces(c, new, 0, edit, other, Seq::empty(), pieces);
    lemma_joined_with_nothing(parts, headers.len());
}

// The init segment.

/// The protection header boxes for a target scheme.
pub open spec fn pssh_parts(
    systems: Seq<SystemView>,
    mapping: Seq<(TrackType, Seq<u8>)>,
    t: Target,
) -> Seq<Seq<u8>> {
    let groups = init::system_groups(systems, t.scheme, systems.len());
    groups.map_values(
        |g: init::GroupView|
            cmaf::boxed(box_type::PSSH@, cmaf::pssh_payload(init::group_pssh(g, mapping))),
    )
}

pub proof fn lemma_pssh_parts(
    groups: Seq<init::GroupView>,
    mapping: Seq<(TrackType, Seq<u8>)>,
    parts: Seq<Seq<u8>>,
    n: nat,
)
    requires
        n <= groups.len(),
        parts == groups.map_values(
            |g: init::GroupView|
                cmaf::boxed(box_type::PSSH@, cmaf::pssh_payload(init::group_pssh(g, mapping))),
        ),
    ensures
        init::group_boxes(groups, mapping, n) == cmaf::joined(parts, n),
    decreases n,
{
    if n > 0 {
        lemma_pssh_parts(groups, mapping, parts, (n - 1) as nat);
    }
}

/// Whether protection can be put on an init segment and taken off again: a run of whole boxes
/// whose movie boxes have eight-byte headers and are fit for it.
pub open spec fn neat_init(s: Seq<u8>, t: Target, mapping: Seq<(TrackType, Seq<u8>)>) -> bool {
    &&& round_trip::whole_boxes(s)
    &&& forall|k: int| #![trigger round_trip::boxes_of(s)[k]]
        0 <= k < round_trip::boxes_of(s).len() ==> {
            let p = round_trip::boxes_of(s)[k];
            round_trip::type_of(p) == box_type::MOOV@ ==> round_trip::head_of(p).header_size == 8
                && neat_moov(round_trip::payload_of(p), t, mapping)
        }
}

/// Whether a movie box, given its payload, has a size after an edit that its size field can say.
#[verifier::opaque]
pub open spec fn moov_sized(
    body: Seq<u8>,
    edit: SampleEdit,
    mapping: Seq<(TrackType, Seq<u8>)>,
    pssh: Seq<u8>,
) -> bool {
    init::edited_moov(body, edit, mapping, pssh) matches Ok(b) ==> b.len() <= u32::MAX
}

/// Whether the movie boxes of an init segment have sizes after an edit that their size fields
/// can say.
pub open spec fn moov_fits(
    s: Seq<u8>,
    edit: SampleEdit,
    mapping: Seq<(TrackType, Seq<u8>)>,
    pssh: Seq<u8>,
) -> bool {
    forall|k: int| #![trigger round_trip::boxes_of(s)[k]]
        0 <= k < round_trip::boxes_of(s).len() && round_trip::type_of(round_trip::boxes_of(s)[k])
            == box_type::MOOV@ ==> moov_sized(
            round_trip::payload_of(round_trip::boxes_of(s)[k]),
            edit,
            mapping,
            pssh,
        )
}

/// Whether the edit makes `piece` of the box `h` of an init segment.
spec fn init_piece(
    s: Seq<u8>,
    h: BoxHeader,
    edit: Option<SampleEdit>,
    mapping: Seq<(TrackType, Seq<u8>)>,
    pssh: Seq<u8>,
    ftyp: Seq<u8>,
    piece: Seq<u8>,
) -> bool {
    if h.box_type@ == box_type::FTYP@ {
        piece == ftyp
    } else if h.box_type@ == box_type::MOOV@ && edit is Some {
        init::edited_moov(cmaf::box_body(s, h), edit->Some_0, mapping, pssh) == Ok::<
            Seq<u8>,
            ErrorView,
        >(piece)
    } else {
        piece == cmaf::box_bytes(s, h)
    }
}

proof fn lemma_init_pieces(
    s: Seq<u8>,
    parts: Seq<Seq<u8>>,
    k: nat,
    edit: Option<SampleEdit>,
    mapping: Seq<(TrackType, Seq<u8>)>,
    pssh: Seq<u8>,
    ftyp: Seq<u8>,
    pieces: Seq<Seq<u8>>,
)
    requires
        round_trip::made_of(s, parts),
        s.len() <= u64::MAX,
        k <= parts.len(),
        pieces.len() == parts.len(),
        forall|i: int|
            0 <= i < parts.len() ==> #[trigger] init_piece(
                s,
                cmaf::run(s).headers[i],
                edit,
                mapping,
                pssh,
                ftyp,
                pieces[i],
            ),
    ensures
        init::init_boxes(s, k as int, edit, mapping, pssh, ftyp, cmaf::joined(pieces, k)) == Ok::<
            Seq<u8>,
            ErrorView,
        >(cmaf::joined(pieces, pieces.len())),
    decreases parts.len() - k,
{
    round_trip::run_hands_out_every_box(s, parts);
    if k < parts.len() {
        let h = cmaf::run(s).headers[k as int];
        assert(init_piece(s, h, edit, mapping, pssh, ftyp, pieces[k as int]));
        lemma_init_pieces(s, parts, k + 1, edit, mapping, pssh, ftyp, pieces);
    }
}

/// A box of an init segment that got protection.
spec fn locked_top(
    p: Seq<u8>,
    t: Target,
    mapping: Seq<(TrackType, Seq<u8>)>,
    pssh: Seq<u8>,
    ftyp: Seq<u8>,
) -> Seq<u8> {
    if round_trip::type_of(p) == box_type::FTYP@ {
        ftyp
    } else if round_trip::type_of(p) == box_type::MOOV@ {
        cmaf::boxed(
            box_type::MOOV@,
            locked_moov(round_trip::payload_of(p), t, mapping, pssh),
        )
    } else {
        p
    }
}

/// The boxes of an init segment that got protection.
spec fn locked_tops(
    s: Seq<u8>,
    t: Target,
    mapping: Seq<(TrackType, Seq<u8>)>,
    pssh: Seq<u8>,
    ftyp: Seq<u8>,
) -> Seq<Seq<u8>> {
    round_trip::boxes_of(s).map_values(|p: Seq<u8>| locked_top(p, t, mapping, pssh, ftyp))
}

/// The boxes of an init segment with another ftyp box.
spec fn renamed_tops(s: Seq<u8>, ftyp: Seq<u8>) -> Seq<Seq<u8>> {
    round_trip::boxes_of(s).map_values(
        |p: Seq<u8>|
            if round_trip::type_of(p) == box_type::FTYP@ {
                ftyp
            } else {
                p
            },
    )
}

proof fn lemma_init_locked(
    s: Seq<u8>,
    t: Target,
    mapping: Seq<(TrackType, Seq<u8>)>,
    pssh: Seq<u8>,
    ftyp: Seq<u8>,
)
    requires
        neat_init(s, t, mapping),
        s.len() <= u64::MAX,
    ensures
        ({
            let new = locked_tops(s, t, mapping, pssh, ftyp);
            init::init_boxes(
                s,
                0,
                Some(SampleEdit::Inject(t)),
                mapping,
                pssh,
                ftyp,
                Seq::empty(),
            ) == Ok::<Seq<u8>, ErrorView>(cmaf::joined(new, new.len()))
        }),
{
    let parts = round_trip::boxes_of(s);
    let new = locked_tops(s, t, mapping, pssh, ftyp);
    let edit = Some(SampleEdit::Inject(t));
    assert(round_trip::made_of(s, parts));
    round_trip::run_hands_out_every_box(s, parts);
    lemma_container_codes();
    assert forall|i: int| 0 <= i < parts.len() implies #[trigger] init_piece(
        s,
        cmaf::run(s).headers[i],
        edit,
        mapping,
        pssh,
        ftyp,
        new[i],
    ) by {
        let p = parts[i];
        assert(round_trip::stands_for(s, cmaf::run(s).headers[i], p));
        assert(round_trip::whole_box(p));
        assert(p == round_trip::boxes_of(s)[i]);
        round_trip::lemma_part_length(parts, i, parts.len());
        if round_trip::type_of(p) == box_type::MOOV@ {
            lemma_moov_locked(round_trip::payload_of(p), t, mapping, pssh);
        }
    }
    lemma_init_pieces(s, parts, 0, edit, mapping, pssh, ftyp, new);
}

proof fn lemma_init_renamed(
    s: Seq<u8>,
    mapping: Seq<(TrackType, Seq<u8>)>,
    pssh: Seq<u8>,
    ftyp: Seq<u8>,
)
    requires
        round_trip::whole_boxes(s),
        s.len() <= u64::MAX,
    ensures
        ({
            let new = renamed_tops(s, ftyp);
            init::init_boxes(s, 0, None, mapping, pssh, ftyp, Seq::empty()) == Ok::<
                Seq<u8>,
                ErrorView,
            >(cmaf::joined(new, new.len()))
        }),
{
    let parts = round_trip::boxes_of(s);
    let new = renamed_tops(s, ftyp);
    assert(round_trip::made_of(s, parts));
    round_trip::run_hands_out_every_box(s, parts);
    assert forall|i: int| 0 <= i < parts.len() implies #[trigger] init_piece(
        s,
        cmaf::run(s).headers[i],
        None,
        mapping,
        pssh,
        ftyp,
        new[i],
    ) by {
        assert(round_trip::stands_for(s, cmaf::run(s).headers[i], parts[i]));
    }
    lemma_init_pieces(s, parts, 0, None, mapping, pssh, ftyp, new);
}

pub proof fn lemma_ftyp_box(format: ContainerFormat)
    ensures
        round_trip::whole_box(format.ftyp()),
        round_trip::type_of(format.ftyp()) == box_type::FTYP@,
{
    let brands = format.brands();
    assert(cmaf::joined(brands, brands.len()).len() <= 12) by {
        reveal_with_fuel(cmaf::joined, 4);
    }
    let payload = container::isom() + bytes::bytes32(0x200) + cmaf::joined(brands, brands.len());
    round_trip::boxed_reads_back(box_type::FTYP@, payload);
}

/// The protection headers that fit into the output are whole boxes.
pub proof fn lemma_pssh_whole(
    systems: Seq<SystemView>,
    mapping: Seq<(TrackType, Seq<u8>)>,
    t: Target,
)
    requires
        init::pssh_boxes(systems, mapping, t.scheme).len() <= u32::MAX,
    ensures
        ({
            let headers = pssh_parts(systems, mapping, t);
            &&& init::pssh_boxes(systems, mapping, t.scheme) == cmaf::joined(
                headers,
                headers.len(),
            )
            &&& forall|k: int|
                0 <= k < headers.len() ==> round_trip::whole_box(#[trigger] headers[k])
                    && round_trip::type_of(headers[k]) == box_type::PSSH@
        }),
{
    let groups = init::system_groups(systems, t.scheme, systems.len());
    let headers = pssh_parts(systems, mapping, t);
    lemma_pssh_parts(groups, mapping, headers, groups.len());
    assert forall|k: int| 0 <= k < headers.len() implies round_trip::whole_box(
        #[trigger] headers[k],
    ) && round_trip::type_of(headers[k]) == box_type::PSSH@ by {
        let payload = cmaf::pssh_payload(init::group_pssh(groups[k], mapping));
        round_trip::lemma_part_length(headers, k, headers.len());
        assert(headers[k] == cmaf::boxed(box_type::PSSH@, payload));
        assert(headers[k].len() == payload.len() + 8);
        round_trip::boxed_reads_back(box_type::PSSH@, payload);
    }
}

/// A box of an init segment that got protection is a whole box, and stripping it gives the
/// box back, with the new ftyp box in place of the old one.
#[verifier::rlimit(40)]
proof fn lemma_top_unlocked(
    c: Seq<u8>,
    h: BoxHeader,
    p: Seq<u8>,
    t: Target,
    mapping: Seq<(TrackType, Seq<u8>)>,
    headers: Seq<Seq<u8>>,
    format: ContainerFormat,
    new_format: ContainerFormat,
)
    requires
        round_trip::whole_box(p),
        round_trip::type_of(p) == box_type::MOOV@ ==> round_trip::head_of(p).header_size == 8
            && neat_moov(round_trip::payload_of(p), t, mapping),
        full_keys(mapping),
        round_trip::type_of(p) == box_type::MOOV@ ==> locked_moov(
            round_trip::payload_of(p),
            t,
            mapping,
            cmaf::joined(headers, headers.len()),
        ).len() + 8 <= u32::MAX && forall|k: int|
            0 <= k < headers.len() ==> round_trip::whole_box(#[trigger] headers[k])
                && round_trip::type_of(headers[k]) == box_type::PSSH@,
    ensures
        ({
            let q = locked_top(
                p,
                t,
                mapping,
                cmaf::joined(headers, headers.len()),
                format.ftyp(),
            );
            &&& round_trip::whole_box(q)
            &&& round_trip::stands_for(c, h, q) ==> init_piece(
                c,
                h,
                Some(SampleEdit::Strip),
                Seq::empty(),
                Seq::empty(),
                new_format.ftyp(),
                if round_trip::type_of(p) == box_type::FTYP@ {
                    new_format.ftyp()
                } else {
                    p
                },
            )
        }),
{
    let pssh = cmaf::joined(headers, headers.len());
    lemma_container_codes();
    if round_trip::type_of(p) == box_type::FTYP@ {
        lemma_ftyp_box(format);
    } else if round_trip::type_of(p) == box_type::MOOV@ {
        let body = round_trip::payload_of(p);
        let payload = locked_moov(body, t, mapping, pssh);
        assert(cmaf::boxed(box_type::MOOV@, payload).len() == payload.len() + 8);
        round_trip::boxed_reads_back(box_type::MOOV@, payload);
        lemma_moov_unlocked(body, t, mapping, headers, Seq::empty());
        round_trip::compact_box_is_rebuilt(p);
    }
}

/// A movie box that got protection and has a size that its size field can say, with whole
/// protection headers in it.
#[verifier::spinoff_prover]
#[verifier::rlimit(60)]
proof fn lemma_moov_measured(
    body: Seq<u8>,
    t: Target,
    systems: Seq<SystemView>,
    mapping: Seq<(TrackType, Seq<u8>)>,
)
    requires
        neat_moov(body, t, mapping),
        body.len() <= u64::MAX,
        moov_sized(
            body,
            SampleEdit::Inject(t),
            mapping,
            init::pssh_boxes(systems, mapping, t.scheme),
        ),
    ensures
        ({
            let headers = pssh_parts(systems, mapping, t);
            let pssh = cmaf::joined(headers, headers.len());
            &&& locked_moov(body, t, mapping, pssh).len() + 8 <= u32::MAX
            &&& forall|j: int|
                0 <= j < headers.len() ==> round_trip::whole_box(#[trigger] headers[j])
                    && round_trip::type_of(headers[j]) == box_type::PSSH@
        }),
{
    let headers = pssh_parts(systems, mapping, t);
    let groups = init::system_groups(systems, t.scheme, systems.len());
    let pssh = init::pssh_boxes(systems, mapping, t.scheme);
    lemma_pssh_parts(groups, mapping, headers, groups.len());
    reveal(moov_sized);
    lemma_moov_locked(body, t, mapping, pssh);
    lemma_locked_length(locked_moov(body, t, mapping, pssh));
    assert(pssh.len() <= locked_moov(body, t, mapping, pssh).len());
    lemma_pssh_whole(systems, mapping, t);
}

proof fn lemma_locked_length(payload: Seq<u8>)
    ensures
        cmaf::boxed(box_type::MOOV@, payload).len() == payload.len() + 8,
{
}

/// What is known of a movie box at a place in the init segment.
#[verifier::spinoff_prover]
#[verifier::rlimit(60)]
proof fn lemma_moov_at(
    s: Seq<u8>,
    k: int,
    t: Target,
    mapping: Seq<(TrackType, Seq<u8>)>,
    pssh: Seq<u8>,
)
    requires
        neat_init(s, t, mapping),
        s.len() <= u64::MAX,
        0 <= k < round_trip::boxes_of(s).len(),
        moov_fits(s, SampleEdit::Inject(t), mapping, pssh),
    ensures
        round_trip::whole_box(round_trip::boxes_of(s)[k]),
        round_trip::type_of(round_trip::boxes_of(s)[k]) == box_type::MOOV@ ==> {
            let p = round_trip::boxes_of(s)[k];
            &&& round_trip::head_of(p).header_size == 8
            &&& neat_moov(round_trip::payload_of(p), t, mapping)
            &&& round_trip::payload_of(p).len() <= u64::MAX
            &&& moov_sized(round_trip::payload_of(p), SampleEdit::Inject(t), mapping, pssh)
        },
{
    let parts = round_trip::boxes_of(s);
    let p = parts[k];
    assert(round_trip::made_of(s, parts));
    assert(round_trip::whole_box(parts[k]));
    round_trip::lemma_part_length(parts, k, parts.len());
    assert(round_trip::payload_of(p).len() <= p.len()) by {
        reveal(round_trip::whole_box);
        reveal(round_trip::head_of);
    }
}

/// The same of the box at a place in the init segment.
#[verifier::spinoff_prover]
#[verifier::rlimit(60)]
proof fn lemma_top_back(
    s: Seq<u8>,
    k: int,
    t: Target,
    systems: Seq<SystemView>,
    mapping: Seq<(TrackType, Seq<u8>)>,
    format: ContainerFormat,
    new_format: ContainerFormat,
    c: Seq<u8>,
    h: BoxHeader,
)
    requires
        neat_init(s, t, mapping),
        full_keys(mapping),
        s.len() <= u64::MAX,
        0 <= k < round_trip::boxes_of(s).len(),
        moov_fits(
            s,
            SampleEdit::Inject(t),
            mapping,
            init::pssh_boxes(systems, mapping, t.scheme),
        ),
    ensures
        ({
            let q = locked_tops(
                s,
                t,
                mapping,
                init::pssh_boxes(systems, mapping, t.scheme),
                format.ftyp(),
            )[k];
            &&& round_trip::whole_box(q)
            &&& round_trip::stands_for(c, h, q) ==> init_piece(
                c,
                h,
                Some(SampleEdit::Strip),
                Seq::empty(),
                Seq::empty(),
                new_format.ftyp(),
                renamed_tops(s, new_format.ftyp())[k],
            )
        }),
{
    lemma_moov_at(s, k, t, mapping, init::pssh_boxes(systems, mapping, t.scheme));
    lemma_box_back(
        round_trip::boxes_of(s)[k],
        t,
        systems,
        mapping,
        format,
        new_format,
        c,
        h,
    );
}

/// The same of a box.
#[verifier::spinoff_prover]
#[verifier::rlimit(60)]
proof fn lemma_box_back(
    p: Seq<u8>,
    t: Target,
    systems: Seq<SystemView>,
    mapping: Seq<(TrackType, Seq<u8>)>,
    format: ContainerFormat,
    new_format: ContainerFormat,
    c: Seq<u8>,
    h: BoxHeader,
)
    requires
        full_keys(mapping),
        round_trip::whole_box(p),
        round_trip::type_of(p) == box_type::MOOV@ ==> {
            &&& round_trip::head_of(p).header_size == 8
            &&& neat_moov(round_trip::payload_of(p), t, mapping)
            &&& round_trip::payload_of(p).len() <= u64::MAX
            &&& moov_sized(
                round_trip::payload_of(p),
                SampleEdit::Inject(t),
                mapping,
                init::pssh_boxes(systems, mapping, t.scheme),
            )
        },
    ensures
        ({
            let q = locked_top(
                p,
                t,
                mapping,
                init::pssh_boxes(systems, mapping, t.scheme),
                format.ftyp(),
            );
            &&& round_trip::whole_box(q)
            &&& round_trip::stands_for(c, h, q) ==> init_piece(
                c,
                h,
                Some(SampleEdit::Strip),
                Seq::empty(),
                Seq::empty(),
                new_format.ftyp(),
                if round_trip::type_of(p) == box_type::FTYP@ {
                    new_format.ftyp()
                } else {
                    p
                },
            )
        }),
{
    let headers = pssh_parts(systems, mapping, t);
    let groups = init::system_groups(systems, t.scheme, systems.len());
    lemma_pssh_parts(groups, mapping, headers, groups.len());
    if round_trip::type_of(p) == box_type::MOOV@ {
        lemma_moov_measured(round_trip::payload_of(p), t, systems, mapping);
    }
    lemma_top_unlocked(c, h, p, t, mapping, headers, format, new_format);
}

/// Protection that was added to a clear init segment comes off again: what is left is the
/// segment with nothing but the ftyp box rewritten.
pub proof fn protection_comes_off(
    s: Seq<u8>,
    t: Target,
    systems: Seq<SystemView>,
    mapping: Seq<(TrackType, Seq<u8>)>,
    format: ContainerFormat,
    new_format: ContainerFormat,
    out: Seq<u8>,
)
    requires
        neat_init(s, t, mapping),
        full_keys(mapping),
        s.len() <= u64::MAX,
        init::edited_init(s, SampleEdit::Inject(t), systems, mapping, format) == Ok::<
            Seq<u8>,
            ErrorView,
        >(out),
        out.len() <= u64::MAX,
        moov_fits(
            s,
            SampleEdit::Inject(t),
            mapping,
            init::pssh_boxes(systems, mapping, t.scheme),
        ),
    ensures
        init::edited_init(out, SampleEdit::Strip, Seq::empty(), Seq::empty(), new_format)
            == init::init_boxes(
            s,
            0,
            None,
            Seq::empty(),
            Seq::empty(),
            new_format.ftyp(),
            Seq::empty(),
        ),
{
    let pssh = init::pssh_boxes(systems, mapping, t.scheme);
    let new = locked_tops(s, t, mapping, pssh, format.ftyp());
    let pieces = renamed_tops(s, new_format.ftyp());
    lemma_init_locked(s, t, mapping, pssh, format.ftyp());
    assert(out == cmaf::joined(new, new.len()));
    let edit = Some(SampleEdit::Strip);
    let headers = cmaf::run(out).headers;
    assert forall|k: int| 0 <= k < new.len() implies round_trip::whole_box(#[trigger] new[k]) by {
        lemma_top_back(s, k, t, systems, mapping, format, new_format, out, headers[k]);
    }
    assert(round_trip::made_of(out, new));
    round_trip::run_hands_out_every_box(out, new);
    assert forall|k: int| 0 <= k < new.len() implies #[trigger] init_piece(
        out,
        cmaf::run(out).headers[k],
        edit,
        Seq::empty(),
        Seq::empty(),
        new_format.ftyp(),
        pieces[k],
    ) by {
        assert(round_trip::stands_for(out, headers[k], new[k]));
        lemma_top_back(s, k, t, systems, mapping, format, new_format, out, headers[k]);
    }
    lemma_init_pieces(
        out,
        new,
        0,
        edit,
        Seq::empty(),
        Seq::empty(),
        new_format.ftyp(),
        pieces,
    );
    lemma_init_renamed(s, Seq::empty(), Seq::empty(), new_format.ftyp());
}

} // verus!
