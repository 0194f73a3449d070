//! What the checks of a request and of a segment refuse.

use crate::chars;
use crate::drm::scheme::EncryptionScheme;
use crate::media::box_type;
use crate::media::cmaf;
use crate::media::codec::TrackView;
use crate::media::compat;
use crate::media::compat::ValidationView;
use crate::text;
use vstd::prelude::*;

verus! {

/// Whether a codec cannot be encrypted with a scheme: text cannot at all, and VP9 not in a
/// pattern.
pub open spec fn refused(codec: Seq<char>, scheme: EncryptionScheme) -> bool {
    let lower = text::lowercase(codec);
    ||| (lower == "wvtt"@ || lower == "stpp"@) && (scheme is Cenc || scheme is Cbcs)
    ||| scheme is Cbcs && chars::starts(lower, "vp09."@)
}

/// Whether encrypting a codec with a scheme is accepted with a caution.
pub open spec fn doubtful(codec: Seq<char>, scheme: EncryptionScheme) -> bool {
    let lower = text::lowercase(codec);
    &&& !refused(codec, scheme)
    &&& {
        ||| scheme is Cbcs && chars::starts(lower, "av01."@)
        ||| scheme is Cenc && (chars::starts(lower, "hev1."@) || chars::starts(lower, "hvc1."@))
        ||| !(scheme is Clear) && compat::hdr_of(lower) is Some
    }
}

/// A codec is refused for a scheme exactly where it cannot be encrypted with it, and brings a
/// warning exactly where a caution is due; nothing is said of what stays clear.
pub proof fn codecs_are_refused_where_they_cannot_be_encrypted(
    codec: Seq<char>,
    scheme: EncryptionScheme,
)
    ensures
        ({
            let v = compat::scheme_check(codec, text::lowercase(codec), scheme);
            &&& v.valid <==> !refused(codec, scheme)
            &&& v.errors.len() > 0 <==> refused(codec, scheme)
            &&& v.warnings.len() > 0 <==> doubtful(codec, scheme)
            &&& scheme is Clear ==> v.warnings.len() == 0 && v.errors.len() == 0
        }),
{
    let lower = text::lowercase(codec);
    lemma_dolby(lower);
}

/// Dolby Vision codecs are told by their names.
proof fn lemma_dolby(lower: Seq<char>)
    ensures
        compat::hdr_of(lower) == Some(compat::HdrFormat::DolbyVision) <==> chars::starts(
            lower,
            "dvhe."@,
        ) || chars::starts(lower, "dvav."@),
{
}

proof fn lemma_track(got: ValidationView, codec: Seq<char>, schemes: Seq<EncryptionScheme>, n: nat)
    requires
        n <= schemes.len(),
    ensures
        compat::track_checks(got, codec, schemes, n).valid <==> got.valid && forall|j: int|
            0 <= j < n ==> !refused(codec, #[trigger] schemes[j]),
    decreases n,
{
    if n > 0 {
        let m = (n - 1) as nat;
        lemma_track(got, codec, schemes, m);
        codecs_are_refused_where_they_cannot_be_encrypted(codec, schemes[m as int]);
        assert(compat::track_checks(got, codec, schemes, n).valid <==> compat::track_checks(
            got,
            codec,
            schemes,
            m,
        ).valid && !refused(codec, schemes[m as int]));
    }
}

/// A request passes exactly where each of its tracks can be encrypted with each of its schemes.
pub proof fn requests_pass_where_every_track_can_be_encrypted(
    tracks: Seq<TrackView>,
    schemes: Seq<EncryptionScheme>,
    n: nat,
)
    requires
        n <= tracks.len(),
    ensures
        compat::request_checks(tracks, schemes, n).valid <==> forall|i: int, j: int|
            0 <= i < n && 0 <= j < schemes.len() ==> !refused(
                (#[trigger] tracks[i]).codec_string,
                #[trigger] schemes[j],
            ),
    decreases n,
{
    if n > 0 {
        let m = (n - 1) as nat;
        requests_pass_where_every_track_can_be_encrypted(tracks, schemes, m);
        let before = compat::request_checks(tracks, schemes, m);
        let codec = tracks[m as int].codec_string;
        lemma_track(before, codec, schemes, schemes.len());
        if compat::request_checks(tracks, schemes, n).valid {
            assert forall|i: int, j: int| 0 <= i < n && 0 <= j < schemes.len() implies !refused(
                (#[trigger] tracks[i]).codec_string,
                #[trigger] schemes[j],
            ) by {}
        }
        if forall|i: int, j: int|
            0 <= i < n && 0 <= j < schemes.len() ==> !refused(
                (#[trigger] tracks[i]).codec_string,
                #[trigger] schemes[j],
            ) {
            assert forall|j: int| 0 <= j < schemes.len() implies !refused(
                codec,
                #[trigger] schemes[j],
            ) by {
                assert(tracks[m as int].codec_string == codec);
            }
        }
    }
}

// Segments.

/// Whether a box of a type is among those from `i` on.
pub open spec fn has_box(s: Seq<u8>, code: Seq<u8>, i: int) -> bool {
    exists|k: int|
        i <= k < cmaf::run(s).headers.len() && (#[trigger] cmaf::run(s).headers[k]).box_type@
            == code
}

/// Whether box `k` is a whole movie box without a track.
pub open spec fn trackless(s: Seq<u8>, k: int) -> bool {
    let h = cmaf::run(s).headers[k];
    &&& h.box_type@ == box_type::MOOV@
    &&& h.offset + h.size <= s.len()
    &&& cmaf::child(cmaf::box_body(s, h), box_type::TRAK@) is None
}

#[verifier::rlimit(40)]
proof fn lemma_init(s: Seq<u8>, i: int, got: ValidationView, ftyp: bool, moov: bool)
    requires
        0 <= i <= cmaf::run(s).headers.len(),
    ensures
        compat::init_checks(s, i, got, ftyp, moov).valid <==> {
            &&& got.valid
            &&& cmaf::run(s).fault is None
            &&& ftyp || has_box(s, box_type::FTYP@, i)
            &&& moov || has_box(s, box_type::MOOV@, i)
            &&& forall|k: int| i <= k < cmaf::run(s).headers.len() ==> !(#[trigger] trackless(s, k))
        },
    decreases cmaf::run(s).headers.len() - i,
{
    let r = cmaf::run(s);
    if i < r.headers.len() {
        let h = r.headers[i];
        let is_ftyp = h.box_type@ == box_type::FTYP@;
        let is_moov = h.box_type@ == box_type::MOOV@;
        let first = if i == 0 && !is_ftyp {
            got.warn("first box is not ftyp"@)
        } else {
            got
        };
        let second = if trackless(s, i) {
            first.fail("moov box contains no trak"@)
        } else {
            first
        };
        assert(compat::init_checks(s, i, got, ftyp, moov) == compat::init_checks(
            s,
            i + 1,
            second,
            ftyp || is_ftyp,
            moov || is_moov,
        ));
        lemma_init(s, i + 1, second, ftyp || is_ftyp, moov || is_moov);
        lemma_has_box(s, box_type::FTYP@, i);
        lemma_has_box(s, box_type::MOOV@, i);
        assert((forall|k: int| i <= k < r.headers.len() ==> !(#[trigger] trackless(s, k)))
            <==> !trackless(s, i) && (forall|k: int|
            i + 1 <= k < r.headers.len() ==> !(#[trigger] trackless(s, k))));
    }
}

proof fn lemma_has_box(s: Seq<u8>, code: Seq<u8>, i: int)
    requires
        0 <= i < cmaf::run(s).headers.len(),
    ensures
        has_box(s, code, i) <==> cmaf::run(s).headers[i].box_type@ == code || has_box(
            s,
            code,
            i + 1,
        ),
{
    if has_box(s, code, i) && cmaf::run(s).headers[i].box_type@ != code {
        let k = choose|k: int|
            i <= k < cmaf::run(s).headers.len() && (#[trigger] cmaf::run(s).headers[k]).box_type@
                == code;
        assert(i + 1 <= k);
    }
    if has_box(s, code, i + 1) {
        let k = choose|k: int|
            i + 1 <= k < cmaf::run(s).headers.len() && (
            #[trigger] cmaf::run(s).headers[k]).box_type@ == code;
        assert(i <= k);
    }
}

/// An initialization segment passes exactly where its boxes can be read, it has a file type and a
/// movie box, and no movie box is without a track.
pub proof fn init_segments_pass_with_type_movie_and_track(s: Seq<u8>)
    ensures
        compat::init_checks(s, 0, ValidationView::passed(), false, false).valid <==> {
            &&& cmaf::run(s).fault is None
            &&& has_box(s, box_type::FTYP@, 0)
            &&& has_box(s, box_type::MOOV@, 0)
            &&& forall|k: int| 0 <= k < cmaf::run(s).headers.len() ==> !(#[trigger] trackless(s, k))
        },
{
    lemma_init(s, 0, ValidationView::passed(), false, false);
}

/// Whether box `k` is a whole fragment box without a track, or whose whole first track has no
/// samples.
pub open spec fn sampleless(s: Seq<u8>, k: int) -> bool {
    let h = cmaf::run(s).headers[k];
    let body = cmaf::box_body(s, h);
    &&& h.box_type@ == box_type::MOOF@
    &&& h.offset + h.size <= s.len()
    &&& match cmaf::child(body, box_type::TRAF@) {
        None => true,
        Some(traf) => traf.offset + traf.size <= body.len() && cmaf::child(
            cmaf::box_body(body, traf),
            box_type::TRUN@,
        ) is None,
    }
}

proof fn lemma_moof(s: Seq<u8>, encrypted: bool, k: int, got: ValidationView)
    requires
        0 <= k < cmaf::run(s).headers.len(),
    ensures
        ({
            let h = cmaf::run(s).headers[k];
            let next = if h.box_type@ == box_type::MOOF@ && compat::box_fits(s, h) {
                compat::moof_checks(cmaf::box_body(s, h), encrypted, got)
            } else {
                got
            };
            next.valid <==> got.valid && !sampleless(s, k)
        }),
{
}

#[verifier::rlimit(40)]
proof fn lemma_media(
    s: Seq<u8>,
    encrypted: bool,
    i: int,
    got: ValidationView,
    moof: bool,
    mdat: bool,
)
    requires
        0 <= i <= cmaf::run(s).headers.len(),
    ensures
        compat::media_checks(s, encrypted, i, got, moof, mdat).valid <==> {
            &&& got.valid
            &&& cmaf::run(s).fault is None
            &&& moof || has_box(s, box_type::MOOF@, i)
            &&& mdat || has_box(s, box_type::MDAT@, i)
            &&& forall|k: int|
                i <= k < cmaf::run(s).headers.len() ==> !(#[trigger] sampleless(s, k))
        },
    decreases cmaf::run(s).headers.len() - i,
{
    let r = cmaf::run(s);
    if i < r.headers.len() {
        let h = r.headers[i];
        let is_moof = h.box_type@ == box_type::MOOF@;
        let is_mdat = h.box_type@ == box_type::MDAT@;
        let next = if is_moof && compat::box_fits(s, h) {
            compat::moof_checks(cmaf::box_body(s, h), encrypted, got)
        } else {
            got
        };
        lemma_moof(s, encrypted, i, got);
        lemma_media(s, encrypted, i + 1, next, moof || is_moof, mdat || is_mdat);
        lemma_has_box(s, box_type::MOOF@, i);
        lemma_has_box(s, box_type::MDAT@, i);
        assert((forall|k: int| i <= k < r.headers.len() ==> !(#[trigger] sampleless(s, k)))
            <==> !sampleless(s, i) && (forall|k: int|
            i + 1 <= k < r.headers.len() ==> !(#[trigger] sampleless(s, k))));
    }
}

/// A media segment passes exactly where its boxes can be read, it has a fragment box and a data
/// box, and no fragment box lacks a track or the samples of its first track, whether encryption
/// is expected or not.
pub proof fn media_segments_pass_with_fragment_and_data(s: Seq<u8>, encrypted: bool)
    ensures
        compat::media_checks(
            s,
            encrypted,
            0,
            ValidationView::passed(),
            false,
            false,
        ).valid <==> {
            &&& cmaf::run(s).fault is None
            &&& has_box(s, box_type::MOOF@, 0)
            &&& has_box(s, box_type::MDAT@, 0)
            &&& forall|k: int|
                0 <= k < cmaf::run(s).headers.len() ==> !(#[trigger] sampleless(s, k))
        },
{
    lemma_media(s, encrypted, 0, ValidationView::passed(), false, false);
}

} // verus!
