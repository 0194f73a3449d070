//! The streams and renditions of a master playlist that was written are read back.

use crate::chars;
use crate::decimal;
use crate::error::ErrorView;
use crate::manifest::elements;
use crate::manifest::hls;
use crate::manifest::hls_input;
use crate::manifest::lines;
use crate::manifest::readback;
use crate::manifest::timeline;
use crate::manifest::types::{IFrameSegmentInfo, ManifestState, TrackMediaType, VariantInfo};
use crate::text;
use crate::url::UrlView;
use vstd::prelude::*;

verus! {

/// Whether no equals sign stands behind one of two letters, and there is one only behind a
/// letter.
spec fn apart(t: Seq<char>, a: char, b: char) -> bool {
    forall|k: int| 0 <= k < t.len() && #[trigger] t[k] == '=' ==> k > 0 && t[k - 1] != a && t[k - 1] != b
}

/// Whether a text starts with a comma, if it is not empty.
spec fn listed(t: Seq<char>) -> bool {
    t.len() > 0 ==> t[0] == ','
}

proof fn lemma_apart_both(s: Seq<char>, t: Seq<char>, a: char, b: char)
    requires
        apart(s, a, b),
        apart(t, a, b),
        listed(s),
        listed(t),
    ensures
        apart(s + t, a, b),
        listed(s + t),
{
    let u = s + t;
    assert forall|k: int| 0 <= k < u.len() && #[trigger] u[k] == '=' implies k > 0 && u[k - 1] != a
        && u[k - 1] != b by {
        if k < s.len() {
            assert(s[k] == '=');
        } else {
            assert(t[k - s.len()] == '=');
        }
    }
}

/// The attributes behind the frame rate.
spec fn groups_text(s: ManifestState) -> Seq<char> {
    hls::when(hls::has_kind(s.variants@, TrackMediaType::Audio), ",AUDIO=\"audio\""@) + hls::when(
        hls::has_kind(s.variants@, TrackMediaType::Subtitle),
        ",SUBTITLES=\"subs\""@,
    ) + hls::when(s.cea_captions@.len() > 0, ",CLOSED-CAPTIONS=\"cc\""@)
}

proof fn lemma_groups(s: ManifestState)
    ensures
        apart(groups_text(s), 'N', 'E'),
        listed(groups_text(s)),
{
    reveal_strlit(",AUDIO=\"audio\"");
    reveal_strlit(",SUBTITLES=\"subs\"");
    reveal_strlit(",CLOSED-CAPTIONS=\"cc\"");
    let a = hls::when(hls::has_kind(s.variants@, TrackMediaType::Audio), ",AUDIO=\"audio\""@);
    let b = hls::when(
        hls::has_kind(s.variants@, TrackMediaType::Subtitle),
        ",SUBTITLES=\"subs\""@,
    );
    let c = hls::when(s.cea_captions@.len() > 0, ",CLOSED-CAPTIONS=\"cc\""@);
    assert(apart(a, 'N', 'E') && apart(b, 'N', 'E') && apart(c, 'N', 'E'));
    lemma_apart_both(a, b, 'N', 'E');
    lemma_apart_both(a + b, c, 'N', 'E');
}

/// What follows the codecs of a stream.
spec fn behind_codecs(s: ManifestState, v: VariantInfo) -> Seq<char> {
    hls::resolution_attr(v.resolution) + (hls::frame_rate_attr(v.frame_rate) + groups_text(s))
}

/// The line of a stream, without its line break.
spec fn stream_text(s: ManifestState, v: VariantInfo) -> Seq<char> {
    "#EXT-X-STREAM-INF:BANDWIDTH="@ + text::dec(v.bandwidth as nat) + ",CODECS=\""@ + v.codecs@
        + "\""@ + behind_codecs(s, v)
}

proof fn lemma_rate(v: VariantInfo)
    requires
        v.frame_rate is Some ==> lines::finite(v.frame_rate->0),
    ensures
        ({
            let r = hls::frame_rate_attr(v.frame_rate);
            &&& apart(r, 'N', 'H')
            &&& listed(r)
            &&& match v.frame_rate {
                Some(d) => {
                    &&& r.len() == 12 + d.fixed(3).len()
                    &&& d.fixed(3).len() > 0
                    &&& r.subrange(1, 12) == "FRAME-RATE"@ + "="@
                    &&& r.subrange(12, r.len() as int) == d.fixed(3)
                    &&& forall|k: int| 0 <= k < r.len() && k != 11 ==> #[trigger] r[k] != '='
                    &&& forall|k: int|
                        0 <= k < d.fixed(3).len() ==> #[trigger] d.fixed(3)[k] != ',' && d.fixed(
                            3,
                        )[k] != '"'
                },
                None => r.len() == 0,
            }
        }),
{
    reveal_strlit(",FRAME-RATE=");
    reveal_strlit("FRAME-RATE");
    reveal_strlit("=");
    if let Some(d) = v.frame_rate {
        readback::written_decimal_is_read(d, 3);
        let r = hls::frame_rate_attr(v.frame_rate);
        assert(r.subrange(1, 12) =~= "FRAME-RATE"@ + "="@);
        assert(r.subrange(12, r.len() as int) =~= d.fixed(3));
        assert forall|k: int| 0 <= k < r.len() && k != 11 implies #[trigger] r[k] != '=' by {
            if k >= 12 {
                assert(r[k] == d.fixed(3)[k - 12]);
            }
        }
    }
}

proof fn lemma_size(v: VariantInfo)
    ensures
        ({
            let r = hls::resolution_attr(v.resolution);
            &&& listed(r)
            &&& match v.resolution {
                Some((w, h)) => {
                    let t = text::dec(w as nat) + "x"@ + text::dec(h as nat);
                    &&& r.len() == 12 + t.len()
                    &&& t.len() > 0
                    &&& r.subrange(1, 12) == "RESOLUTION"@ + "="@
                    &&& r.subrange(12, r.len() as int) == t
                    &&& r[10] == 'N'
                    &&& forall|k: int| 0 <= k < r.len() && k != 11 ==> #[trigger] r[k] != '='
                    &&& forall|k: int| 0 <= k < t.len() ==> #[trigger] t[k] != ',' && t[k] != '"'
                    &&& hls_input::resolution_of(t) == Some((w, h))
                },
                None => r.len() == 0,
            }
        }),
{
    reveal_strlit(",RESOLUTION=");
    reveal_strlit("RESOLUTION");
    reveal_strlit("=");
    reveal_strlit("x");
    if let Some((w, h)) = v.resolution {
        let a = text::dec(w as nat);
        let b = text::dec(h as nat);
        let t = a + "x"@ + b;
        let r = hls::resolution_attr(v.resolution);
        elements::lemma_number_plain(w as nat);
        elements::lemma_number_plain(h as nat);
        timeline::written_number_is_read(w as nat, u32::MAX as nat);
        timeline::written_number_is_read(h as nat, u32::MAX as nat);
        assert(r.subrange(1, 12) =~= "RESOLUTION"@ + "="@);
        assert(r.subrange(12, r.len() as int) =~= t);
        assert forall|k: int| 0 <= k < t.len() implies #[trigger] t[k] != ',' && t[k] != '"' && t[k]
            != '=' && (t[k] == 'x' ==> k == a.len()) by {
            if k < a.len() {
                assert(chars::is_digit(a[k]));
            } else if k > a.len() {
                assert(t[k] == b[k - a.len() - 1]);
                assert(chars::is_digit(b[k - a.len() - 1]));
            }
        }
        assert forall|k: int| 0 <= k < r.len() && k != 11 implies #[trigger] r[k] != '=' by {
            if k >= 12 {
                assert(r[k] == t[k - 12]);
            }
        }
        assert(t =~= a.push('x') + b);
        lemma_two_pieces(a, b, t, 'x');
    }
}

/// Two texts on both sides of a letter that neither holds.
pub proof fn lemma_two_pieces(a: Seq<char>, b: Seq<char>, t: Seq<char>, sep: char)
    requires
        t == a.push(sep) + b,
        forall|k: int| 0 <= k < t.len() && k != a.len() ==> #[trigger] t[k] != sep,
    ensures
        chars::pieces(t, sep) == seq![a, b],
{
    reveal_with_fuel(chars::pieces_from, 3);
    readback::lemma_char_at(t, sep, 0, a.len() as int);
    lines::lemma_no_char(t, sep, a.len() as int + 1);
    assert(t.subrange(0, a.len() as int) =~= a);
    assert(t.subrange(a.len() as int + 1, t.len() as int) =~= b);
    assert(chars::pieces(t, sep) =~= seq![a, b]);
}

/// A stream's line from its attributes on.
spec fn stream_attrs(s: ManifestState, v: VariantInfo) -> Seq<char> {
    "BANDWIDTH="@ + text::dec(v.bandwidth as nat) + ",CODECS=\""@ + v.codecs@ + "\""@
        + behind_codecs(s, v)
}

/// Where the equals signs stand before what follows the codecs.
#[verifier::rlimit(40)]
proof fn lemma_stream_start(s: ManifestState, v: VariantInfo)
    requires
        elements::plain_variant(v),
    ensures
        ({
            let a = stream_attrs(s, v);
            let n = text::dec(v.bandwidth as nat).len() as int;
            let m = v.codecs@.len() as int;
            let t = behind_codecs(s, v);
            let q = 20 + n + m;
            &&& n > 0
            &&& a.len() == q + t.len()
            &&& a.subrange(0, 10) == "BANDWIDTH"@ + "="@
            &&& a.subrange(10, 10 + n) == text::dec(v.bandwidth as nat)
            &&& a[10 + n] == ','
            &&& a[8] == 'H'
            &&& a[16 + n] == 'S'
            &&& a.subrange(11 + n, 19 + n) == "CODECS"@ + "=\""@
            &&& a.subrange(19 + n, 19 + n + m) == v.codecs@
            &&& a[19 + n + m] == '"'
            &&& a.skip(q) == t
            &&& forall|k: int| 0 <= k < q && k != 9 && k != 17 + n ==> #[trigger] a[k] != '='
            &&& forall|k: int| q <= k < a.len() ==> #[trigger] a[k] == t[k - q]
        }),
{
    reveal_strlit("BANDWIDTH=");
    reveal_strlit("BANDWIDTH");
    reveal_strlit("=");
    reveal_strlit("=\"");
    reveal_strlit(",CODECS=\"");
    reveal_strlit("CODECS");
    reveal_strlit("\"");
    let a = stream_attrs(s, v);
    let b = text::dec(v.bandwidth as nat);
    let c = v.codecs@;
    let n = b.len() as int;
    let m = c.len() as int;
    let t = behind_codecs(s, v);
    let q = 20 + n + m;
    elements::lemma_number_plain(v.bandwidth as nat);
    assert forall|k: int| 0 <= k < q && k != 9 && k != 17 + n implies #[trigger] a[k] != '=' by {
        if 10 <= k < 10 + n {
            assert(a[k] == b[k - 10]);
            assert(chars::is_digit(b[k - 10]));
        } else if 19 + n <= k < 19 + n + m {
            assert(a[k] == c[k - 19 - n]);
            assert(c.contains(c[k - 19 - n]));
        }
    }
    assert(a.subrange(0, 10) =~= "BANDWIDTH"@ + "="@);
    assert(a.subrange(10, 10 + n) =~= b);
    assert(a.subrange(11 + n, 19 + n) =~= "CODECS"@ + "=\""@);
    assert(a.subrange(19 + n, 19 + n + m) =~= c);
    assert(a.skip(q) =~= t);
}

/// The bandwidth and the codecs in the line of a stream.
#[verifier::rlimit(40)]
proof fn lemma_stream_codecs(s: ManifestState, v: VariantInfo)
    requires
        elements::plain_variant(v),
    ensures
        hls_input::bare(stream_attrs(s, v), "BANDWIDTH"@) == Some(text::dec(v.bandwidth as nat)),
        hls_input::quoted(stream_text(s, v), "CODECS"@) == Some(v.codecs@),
        stream_text(s, v).len() >= 18,
        stream_text(s, v).subrange(18, stream_text(s, v).len() as int) == stream_attrs(s, v),
        chars::starts(stream_text(s, v), "#EXT-X-STREAM-INF:"@),
{
    reveal_strlit("#EXT-X-STREAM-INF:BANDWIDTH=");
    reveal_strlit("#EXT-X-STREAM-INF:");
    reveal_strlit("BANDWIDTH=");
    reveal_strlit("BANDWIDTH");
    reveal_strlit("=");
    reveal_strlit("=\"");
    reveal_strlit("CODECS");
    lemma_stream_start(s, v);
    elements::lemma_number_plain(v.bandwidth as nat);
    let line = stream_text(s, v);
    let a = stream_attrs(s, v);
    let b = text::dec(v.bandwidth as nat);
    let c = v.codecs@;
    let n = b.len() as int;
    let m = c.len() as int;
    assert(line =~= "#EXT-X-STREAM-INF:"@ + a);
    assert(line.subrange(18, line.len() as int) =~= a);
    assert(line.subrange(0, 18) =~= "#EXT-X-STREAM-INF:"@);
    lines::lemma_first(a, "BANDWIDTH"@, "="@, 0);
    assert forall|k: int| 0 <= k < b.len() implies #[trigger] b[k] != ',' && b[k] != '"' by {
        assert(chars::is_digit(b[k]));
    }
    lines::lemma_bare(a, "BANDWIDTH"@, 0, b, 10 + n);
    assert forall|k: int| 18 <= k < line.len() implies #[trigger] line[k] == a[k - 18] by {}
    assert(line.subrange(29 + n, 37 + n) =~= a.subrange(11 + n, 19 + n));
    assert(line.subrange(37 + n, 37 + n + m) =~= a.subrange(19 + n, 19 + n + m));
    elements::lemma_attr(line, "CODECS"@, 29 + n, c);
}

/// The size and the frame rate in the line of a stream.
#[verifier::rlimit(60)]
proof fn lemma_stream_rest(s: ManifestState, v: VariantInfo)
    requires
        elements::plain_variant(v),
        v.frame_rate is Some ==> lines::finite(v.frame_rate->0),
    ensures
        hls_input::resolution_in(hls_input::bare(stream_attrs(s, v), "RESOLUTION"@))
            == v.resolution,
        hls_input::bare(stream_attrs(s, v), "FRAME-RATE"@) == (match v.frame_rate {
            Some(d) => Some(d.fixed(3)),
            None => None,
        }),
{
    reveal_strlit("=");
    reveal_strlit("RESOLUTION");
    reveal_strlit("FRAME-RATE");
    lemma_stream_start(s, v);
    lemma_size(v);
    lemma_rate(v);
    lemma_groups(s);
    let a = stream_attrs(s, v);
    let n = text::dec(v.bandwidth as nat).len() as int;
    let m = v.codecs@.len() as int;
    let t = behind_codecs(s, v);
    let q = 20 + n + m;
    let r = hls::resolution_attr(v.resolution);
    let f = hls::frame_rate_attr(v.frame_rate);
    let g = groups_text(s);
    let lr = r.len() as int;
    let lf = f.len() as int;
    assert forall|k: int| q <= k < q + lr implies #[trigger] a[k] == r[k - q] by {
        assert(a[k] == t[k - q]);
    }
    assert forall|k: int| q + lr <= k < q + lr + lf implies #[trigger] a[k] == f[k - q - lr] by {
        assert(a[k] == t[k - q]);
    }
    assert forall|k: int| q + lr + lf <= k < a.len() implies #[trigger] a[k] == g[k - q - lr - lf] by {
        assert(a[k] == t[k - q]);
    }
    let p = "RESOLUTION"@ + "="@;
    match v.resolution {
        Some((w, h)) => {
            let size = text::dec(w as nat) + "x"@ + text::dec(h as nat);
            assert(a.subrange(q + 1, q + 12) =~= r.subrange(1, 12));
            assert(a.subrange(q + 12, q + lr) =~= r.subrange(12, lr));
            lines::lemma_first(a, "RESOLUTION"@, "="@, q + 1);
            lines::lemma_bare(a, "RESOLUTION"@, q + 1, size, q + lr);
        },
        None => {
            assert forall|k: int| 10 <= k < a.len() && #[trigger] a[k] == '=' implies a[k - 1]
                != 'N' by {
                if q + lr <= k < q + lr + lf {
                    assert(f[k - q - lr] == '=');
                } else if k >= q + lr + lf {
                    assert(g[k - q - lr - lf] == '=');
                }
            }
            lines::lemma_first(a, "RESOLUTION"@, "="@, a.len() - 10);
            assert forall|k: int| 0 <= k implies !(#[trigger] chars::stands_at(a, p, k)) by {
                if k >= a.len() - 10 {
                    assert(k + p.len() > a.len());
                }
            }
            lines::lemma_not_found(a, p, 0);
        },
    }
    let e = "FRAME-RATE"@ + "="@;
    match v.frame_rate {
        Some(d) => {
            let at = q + lr + 1;
            assert(a.subrange(at, at + 11) =~= f.subrange(1, 12));
            assert(a.subrange(at + 11, q + lr + lf) =~= f.subrange(12, lf));
            lines::lemma_first(a, "FRAME-RATE"@, "="@, at);
            lines::lemma_bare(a, "FRAME-RATE"@, at, d.fixed(3), q + lr + lf);
        },
        None => {
            assert forall|k: int| 10 <= k < a.len() && #[trigger] a[k] == '=' implies a[k - 1]
                != 'E' by {
                if k >= q + lr + lf {
                    assert(g[k - q - lr - lf] == '=');
                }
            }
            lines::lemma_first(a, "FRAME-RATE"@, "="@, a.len() - 10);
            assert forall|k: int| 0 <= k implies !(#[trigger] chars::stands_at(a, e, k)) by {
                if k >= a.len() - 10 {
                    assert(k + e.len() > a.len());
                }
            }
            lines::lemma_not_found(a, e, 0);
        },
    }
}

/// Whether a line announces a variant: its bandwidth, codecs, size and frame rate.
pub open spec fn announces(line: Seq<char>, v: VariantInfo) -> bool {
    let r = hls_input::variant_of(line);
    &&& chars::starts(line, "#EXT-X-STREAM-INF:"@)
    &&& r.bandwidth == v.bandwidth
    &&& r.codecs == Some(v.codecs@)
    &&& match v.resolution {
        Some((w, h)) => r.width == Some(w) && r.height == Some(h),
        None => r.width is None && r.height is None,
    }
    &&& match v.frame_rate {
        Some(d) => r.frame_rate == Some(d.fixed(3)),
        None => r.frame_rate is None,
    }
}

/// The line of a stream is read as the variant that it was written for, and its reference is on
/// the next line.
pub proof fn written_streams_are_read(s: ManifestState, v: VariantInfo, uri: Seq<char>) -> (line:
    Seq<char>)
    requires
        elements::plain_variant(v),
        v.frame_rate is Some ==> lines::finite(v.frame_rate->0),
    ensures
        hls::stream_lines(s, v, uri) == line + "\n"@ + uri + "\n"@,
        announces(line, v),
{
    lemma_announces(s, v);
    lemma_stream_lines(s, v, uri);
    stream_text(s, v)
}

proof fn lemma_announces(s: ManifestState, v: VariantInfo)
    requires
        elements::plain_variant(v),
        v.frame_rate is Some ==> lines::finite(v.frame_rate->0),
    ensures
        announces(stream_text(s, v), v),
{
    lemma_stream_codecs(s, v);
    lemma_stream_rest(s, v);
    timeline::written_number_is_read(v.bandwidth as nat, u64::MAX as nat);
}

proof fn lemma_stream_lines(s: ManifestState, v: VariantInfo, uri: Seq<char>)
    ensures
        hls::stream_lines(s, v, uri) == stream_text(s, v) + "\n"@ + uri + "\n"@,
{
    let head = "#EXT-X-STREAM-INF:BANDWIDTH="@ + text::dec(v.bandwidth as nat) + ",CODECS=\""@
        + v.codecs@ + "\""@;
    let r = hls::resolution_attr(v.resolution);
    let f = hls::frame_rate_attr(v.frame_rate);
    let a = hls::when(hls::has_kind(s.variants@, TrackMediaType::Audio), ",AUDIO=\"audio\""@);
    let b = hls::when(
        hls::has_kind(s.variants@, TrackMediaType::Subtitle),
        ",SUBTITLES=\"subs\""@,
    );
    let c = hls::when(s.cea_captions@.len() > 0, ",CLOSED-CAPTIONS=\"cc\""@);
    lemma_regrouped(head, r, f, a, b, c);
    assert(stream_text(s, v) == head + r + f + a + b + c);
}

proof fn lemma_regrouped(
    head: Seq<char>,
    r: Seq<char>,
    f: Seq<char>,
    a: Seq<char>,
    b: Seq<char>,
    c: Seq<char>,
)
    ensures
        head + (r + (f + (a + b + c))) == head + r + f + a + b + c,
{
    assert(head + (r + (f + (a + b + c))) =~= head + r + f + a + b + c);
}

/// The places of the variants of a kind among the first `n`.
pub open spec fn places(variants: Seq<VariantInfo>, kind: TrackMediaType, n: nat) -> Seq<int> {
    Seq::new(n, |i: int| i).filter(|i: int| variants[i].track_type == kind)
}

/// Where the playlist of the variant at a place is: as given, else under its path, else at the
/// default.
pub open spec fn stream_at(line: Seq<char>, s: ManifestState, uris: Seq<String>, i: int, uri: Seq<char>) -> bool {
    &&& announces(line, s.variants@[i])
    &&& i < uris.len() ==> uri == uris[i]@
    &&& i >= uris.len() ==> match s.variants@[i].segment_path_prefix {
        Some(p) => uri == p@ + "manifest"@,
        None => uri == "variant.m3u8"@,
    }
}

/// A master playlist has one stream for each video variant, in order, with that variant's own
/// details and its own reference.
pub proof fn streams_show_each_video(s: ManifestState, uris: Seq<String>, n: nat) -> (r: (
    Seq<Seq<char>>,
    Seq<Seq<char>>,
))
    requires
        n <= s.variants@.len(),
        forall|i: int|
            0 <= i < n ==> elements::plain_variant(#[trigger] s.variants@[i]) && (
            s.variants@[i].frame_rate is Some ==> lines::finite(s.variants@[i].frame_rate->0)),
    ensures
        ({
            let at = places(s.variants@, TrackMediaType::Video, n);
            &&& r.0.len() == at.len()
            &&& r.1.len() == at.len()
            &&& hls::video_lines(s, uris, n) == lines::joined(
                Seq::new(at.len(), |k: int| r.0[k] + "\n"@ + r.1[k] + "\n"@),
            )
            &&& forall|k: int|
                0 <= k < at.len() ==> stream_at(
                    #[trigger] r.0[k],
                    s,
                    uris,
                    at[k],
                    r.1[k],
                )
        }),
    decreases n,
{
    reveal(Seq::filter);
    let all = Seq::new(n, |i: int| i);
    let at = places(s.variants@, TrackMediaType::Video, n);
    if n == 0 {
        let none = Seq::<Seq<char>>::empty();
        assert(Seq::new(at.len(), |k: int| none[k] + "\n"@ + none[k] + "\n"@) =~= none);
        (none, none)
    } else {
        let m = (n - 1) as nat;
        let (heads, refs) = streams_show_each_video(s, uris, m);
        assert(all.drop_last() =~= Seq::new(m, |i: int| i));
        let v = s.variants@[m as int];
        let before = places(s.variants@, TrackMediaType::Video, m);
        if v.track_type is Video {
            let uri = hls::stream_uri(v, uris, m as int);
            let line = written_streams_are_read(s, v, uri);
            let h = heads.push(line);
            let f = refs.push(uri);
            assert(at == before.push(m as int));
            assert(Seq::new(at.len(), |k: int| h[k] + "\n"@ + f[k] + "\n"@).drop_last()
                =~= Seq::new(before.len(), |k: int| heads[k] + "\n"@ + refs[k] + "\n"@));
            (h, f)
        } else {
            assert(at == before);
            (heads, refs)
        }
    }
}

// Renditions.

/// Whether a text can stand in an attribute.
pub open spec fn plain(t: Seq<char>) -> bool {
    !t.contains('"') && !t.contains('=')
}

/// The language attribute.
spec fn language_attr(lang: Option<Seq<char>>) -> Seq<char> {
    match lang {
        Some(l) => ",LANGUAGE=\""@ + l + "\""@,
        None => Seq::empty(),
    }
}

/// A rendition's line up to its name.
#[verifier::opaque]
spec fn rendition_start(kind: Seq<char>, group: Seq<char>, lang: Option<Seq<char>>) -> Seq<char> {
    "#EXT-X-MEDIA:TYPE="@ + kind + ",GROUP-ID=\""@ + group + "\""@ + language_attr(lang)
}

/// The line of a rendition, without its line break.
#[verifier::opaque]
spec fn rendition_text(
    kind: Seq<char>,
    group: Seq<char>,
    lang: Option<Seq<char>>,
    name: Seq<char>,
    preset: Seq<char>,
    uri: Seq<char>,
) -> Seq<char> {
    rendition_start(kind, group, lang) + ",NAME=\""@ + name + "\",DEFAULT="@ + preset
        + ",AUTOSELECT=YES,URI=\""@ + uri + "\""@
}

/// Where the equals signs stand in the start of a rendition's line.
#[verifier::rlimit(40)]
proof fn lemma_rendition_start(kind: Seq<char>, group: Seq<char>, lang: Option<Seq<char>>)
    requires
        plain(kind),
        plain(group),
        lang is Some ==> plain(lang->0),
    ensures
        ({
            let s = rendition_start(kind, group, lang);
            let k = kind.len() as int;
            let g = group.len() as int;
            let l = language_attr(lang).len() as int;
            &&& s.len() == 30 + k + g + l
            &&& s.subrange(0, 13) == "#EXT-X-MEDIA:"@
            &&& s.subrange(13, 18) == "TYPE"@ + "="@
            &&& s.subrange(18, 18 + k) == kind
            &&& s[18 + k] == ','
            &&& s.subrange(19 + k, 29 + k) == "GROUP-ID"@ + "=\""@
            &&& s.subrange(29 + k, 29 + k + g) == group
            &&& s[29 + k + g] == '"'
            &&& s[16] == 'E'
            &&& s[13] == 'T'
            &&& s[9] == 'D'
            &&& s[26 + k] == 'D'
            &&& s[23 + k] == 'P'
            &&& forall|i: int|
                0 <= i < s.len() && i != 17 && i != 27 + k && (i != 39 + k + g || lang is None)
                    ==> #[trigger] s[i] != '='
            &&& lang matches Some(t) ==> {
                &&& l == 12 + t.len()
                &&& s.subrange(31 + k + g, 41 + k + g) == "LANGUAGE"@ + "=\""@
                &&& s.subrange(41 + k + g, 41 + k + g + t.len()) == t
                &&& s[(41 + k + g + t.len()) as int] == '"'
                &&& s[38 + k + g] == 'E'
                &&& s[35 + k + g] == 'U'
            }
            &&& lang is None ==> l == 0
        }),
{
    reveal(rendition_start);
    reveal_strlit("#EXT-X-MEDIA:TYPE=");
    reveal_strlit("#EXT-X-MEDIA:");
    reveal_strlit("TYPE");
    reveal_strlit("=");
    reveal_strlit("=\"");
    reveal_strlit("\"");
    reveal_strlit(",GROUP-ID=\"");
    reveal_strlit("GROUP-ID");
    reveal_strlit(",LANGUAGE=\"");
    reveal_strlit("LANGUAGE");
    let s = rendition_start(kind, group, lang);
    let k = kind.len() as int;
    let g = group.len() as int;
    assert forall|i: int|
        0 <= i < s.len() && i != 17 && i != 27 + k && (i != 39 + k + g || lang is None) implies
        #[trigger] s[i] != '=' by {
        if 18 <= i < 18 + k {
            assert(s[i] == kind[i - 18]);
            assert(kind.contains(kind[i - 18]));
        } else if 29 + k <= i < 29 + k + g {
            assert(s[i] == group[i - 29 - k]);
            assert(group.contains(group[i - 29 - k]));
        } else if lang is Some && 41 + k + g <= i < 41 + k + g + lang->0.len() {
            assert(s[i] == lang->0[i - 41 - k - g]);
            assert(lang->0.contains(lang->0[i - 41 - k - g]));
        }
    }
    assert(s.subrange(0, 13) =~= "#EXT-X-MEDIA:"@);
    assert(s.subrange(13, 18) =~= "TYPE"@ + "="@);
    assert(s.subrange(18, 18 + k) =~= kind);
    assert(s.subrange(19 + k, 29 + k) =~= "GROUP-ID"@ + "=\""@);
    assert(s.subrange(29 + k, 29 + k + g) =~= group);
    if let Some(t) = lang {
        assert(s.subrange(31 + k + g, 41 + k + g) =~= "LANGUAGE"@ + "=\""@);
        assert(s.subrange(41 + k + g, 41 + k + g + t.len()) =~= t);
    }
}

/// Where the equals signs stand behind the start of a rendition's line.
#[verifier::rlimit(40)]
proof fn lemma_rendition_marks(
    kind: Seq<char>,
    group: Seq<char>,
    lang: Option<Seq<char>>,
    name: Seq<char>,
    preset: Seq<char>,
    uri: Seq<char>,
)
    requires
        plain(name),
        plain(preset),
    ensures
        ({
            let line = rendition_text(kind, group, lang, name, preset, uri);
            let start = rendition_start(kind, group, lang);
            let q = start.len() as int;
            let n = name.len() as int;
            let d = q + 7 + n + 10;
            let e = d + preset.len() as int;
            &&& line.len() == e + 21 + uri.len()+ 1
            &&& forall|i: int| 0 <= i < q ==> #[trigger] line[i] == start[i]
            &&& line.subrange(q + 1, q + 7) == "NAME"@ + "=\""@
            &&& line[q] == ','
            &&& line.subrange(q + 7, q + 7 + n) == name
            &&& line[q + 7 + n] == '"'
            &&& line.subrange(d - 8, d) == "DEFAULT"@ + "="@
            &&& line.subrange(d, e) == preset
            &&& line[e] == ','
            &&& line.subrange(e + 16, e + 21) == "URI"@ + "=\""@
            &&& line.subrange(e + 21, e + 21 + uri.len()) == uri
            &&& line[(e + 21 + uri.len()) as int] == '"'
            &&& line[q + 4] == 'E'
            &&& line[q + 1] == 'N'
            &&& line[d - 2] == 'T'
            &&& line[e + 10] == 'T'
            &&& forall|i: int|
                q <= i < e + 21 && i != q + 5 && i != d - 1 && i != e + 11 && i != e + 19
                    ==> #[trigger] line[i] != '='
        }),
{
    reveal(rendition_text);
    reveal_strlit(",NAME=\"");
    reveal_strlit("NAME");
    reveal_strlit("=");
    reveal_strlit("=\"");
    reveal_strlit("\"");
    reveal_strlit("\",DEFAULT=");
    reveal_strlit("DEFAULT");
    reveal_strlit(",AUTOSELECT=YES,URI=\"");
    reveal_strlit("URI");
    let line = rendition_text(kind, group, lang, name, preset, uri);
    let start = rendition_start(kind, group, lang);
    let q = start.len() as int;
    let n = name.len() as int;
    let d = q + 7 + n + 10;
    let e = d + preset.len() as int;
    assert forall|i: int|
        q <= i < e + 21 && i != q + 5 && i != d - 1 && i != e + 11 && i != e + 19 implies
        #[trigger] line[i] != '=' by {
        if q + 7 <= i < q + 7 + n {
            assert(line[i] == name[i - q - 7]);
            assert(name.contains(name[i - q - 7]));
        } else if d <= i < e {
            assert(line[i] == preset[i - d]);
            assert(preset.contains(preset[i - d]));
        }
    }
    assert(line.subrange(q + 1, q + 7) =~= "NAME"@ + "=\""@);
    assert(line.subrange(q + 7, q + 7 + n) =~= name);
    assert(line.subrange(d - 8, d) =~= "DEFAULT"@ + "="@);
    assert(line.subrange(d, e) =~= preset);
    assert(line.subrange(e + 16, e + 21) =~= "URI"@ + "=\""@);
    assert(line.subrange(e + 21, e + 21 + uri.len()) =~= uri);
}

/// What the line of a rendition says of its kind, group and language.
#[verifier::rlimit(60)]
proof fn lemma_rendition_group(
    kind: Seq<char>,
    group: Seq<char>,
    lang: Option<Seq<char>>,
    name: Seq<char>,
    preset: Seq<char>,
    uri: Seq<char>,
)
    requires
        plain(kind),
        !kind.contains(','),
        kind.len() > 0,
        plain(group),
        group.len() >= 4,
        lang is Some ==> plain(lang->0),
        plain(name),
        plain(preset),
        !chars::holds(uri, "LANGUAGE"@),
    ensures
        ({
            let line = rendition_text(kind, group, lang, name, preset, uri);
            &&& chars::starts(line, "#EXT-X-MEDIA:"@)
            &&& hls_input::bare(line, "TYPE"@) == Some(kind)
            &&& hls_input::quoted(line, "GROUP-ID"@) == Some(group)
            &&& lang is Some ==> hls_input::quoted(line, "LANGUAGE"@) == lang
        }),
{
    reveal_strlit("#EXT-X-MEDIA:");
    reveal_strlit("TYPE");
    reveal_strlit("GROUP-ID");
    reveal_strlit("LANGUAGE");
    reveal_strlit("=");
    reveal_strlit("=\"");
    lemma_rendition_start(kind, group, lang);
    lemma_rendition_marks(kind, group, lang, name, preset, uri);
    let line = rendition_text(kind, group, lang, name, preset, uri);
    let start = rendition_start(kind, group, lang);
    let k = kind.len() as int;
    let g = group.len() as int;
    assert(line.subrange(0, 13) =~= start.subrange(0, 13));
    assert(line.subrange(13, 18) =~= start.subrange(13, 18));
    assert(line.subrange(18, 18 + k) =~= start.subrange(18, 18 + k));
    assert(line.subrange(19 + k, 29 + k) =~= start.subrange(19 + k, 29 + k));
    assert(line.subrange(29 + k, 29 + k + g) =~= start.subrange(29 + k, 29 + k + g));
    assert forall|i: int| 0 <= i < k implies #[trigger] kind[i] != ',' && kind[i] != '"' by {
        assert(kind.contains(kind[i]));
    }
    lines::lemma_first(line, "TYPE"@, "="@, 13);
    lines::lemma_bare(line, "TYPE"@, 13, kind, 18 + k);
    elements::lemma_attr(line, "GROUP-ID"@, 19 + k, group);
    if let Some(t) = lang {
        let at = 31 + k + g;
        assert(line.subrange(at, at + 10) =~= start.subrange(at, at + 10));
        assert(line.subrange(at + 10, at + 10 + t.len()) =~= start.subrange(at + 10, at + 10 + t.len()));
        elements::lemma_attr(line, "LANGUAGE"@, at, t);
    }
}

/// What the line of a rendition says of its name, preset and reference.
#[verifier::rlimit(60)]
proof fn lemma_rendition_name(
    kind: Seq<char>,
    group: Seq<char>,
    lang: Option<Seq<char>>,
    name: Seq<char>,
    preset: Seq<char>,
    uri: Seq<char>,
)
    requires
        plain(kind),
        plain(group),
        lang is Some ==> plain(lang->0),
        plain(name),
        plain(preset),
        !preset.contains(','),
        preset.len() > 0,
        !uri.contains('"'),
    ensures
        ({
            let line = rendition_text(kind, group, lang, name, preset, uri);
            &&& hls_input::quoted(line, "NAME"@) == Some(name)
            &&& hls_input::bare(line, "DEFAULT"@) == Some(preset)
            &&& hls_input::quoted(line, "URI"@) == Some(uri)
        }),
{
    reveal_strlit("NAME");
    reveal_strlit("DEFAULT");
    reveal_strlit("URI");
    reveal_strlit("=");
    reveal_strlit("=\"");
    lemma_rendition_start(kind, group, lang);
    lemma_rendition_marks(kind, group, lang, name, preset, uri);
    let line = rendition_text(kind, group, lang, name, preset, uri);
    let start = rendition_start(kind, group, lang);
    let q = start.len() as int;
    let n = name.len() as int;
    let d = q + 7 + n + 10;
    let e = d + preset.len() as int;
    let k = kind.len() as int;
    let g = group.len() as int;
    assert forall|i: int|
        0 <= i < q && i != 17 && i != 27 + k && (i != 39 + k + g || lang is None) implies
        #[trigger] line[i] != '=' by {
        assert(line[i] == start[i]);
    }
    assert(line[16] == 'E' && line[13] == 'T');
    assert(line[26 + k] == 'D' && line[23 + k] == 'P');
    if lang is Some {
        assert(line[38 + k + g] == 'E' && line[35 + k + g] == 'U');
    }
    assert forall|i: int| 0 <= i < preset.len() implies #[trigger] preset[i] != ',' && preset[i]
        != '"' by {
        assert(preset.contains(preset[i]));
    }
    assert(hls_input::quoted(line, "NAME"@) == Some(name)) by {
        elements::lemma_attr(line, "NAME"@, q + 1, name);
    }
    assert(hls_input::bare(line, "DEFAULT"@) == Some(preset)) by {
        lines::lemma_first(line, "DEFAULT"@, "="@, d - 8);
        lines::lemma_bare(line, "DEFAULT"@, d - 8, preset, e);
    }
    assert(hls_input::quoted(line, "URI"@) == Some(uri)) by {
        elements::lemma_attr(line, "URI"@, e + 16, uri);
    }
}

/// Whether a line announces a rendition of a kind.
pub open spec fn announces_rendition(
    line: Seq<char>,
    kind: Seq<char>,
    group: Seq<char>,
    name: Seq<char>,
    preset: bool,
    uri: Seq<char>,
    base: UrlView,
) -> bool {
    &&& chars::starts(line, "#EXT-X-MEDIA:"@)
    &&& hls_input::bare(line, "TYPE"@) == Some(kind)
    &&& match hls_input::rendition_of(line, base) {
        Ok(r) => {
            &&& hls_input::resolved(base, uri) == Ok::<Seq<char>, ErrorView>(r.uri->0)
            &&& r.uri is Some
            &&& r.group_id == group
            &&& r.name == name
            &&& r.is_default == preset
        },
        Err(e) => hls_input::resolved(base, uri) == Err::<Seq<char>, ErrorView>(e),
    }
}

/// Whether a variant can be told as a rendition.
pub open spec fn plain_rendition(v: VariantInfo, uri: Seq<char>) -> bool {
    &&& plain(v.id@)
    &&& v.language is Some ==> plain(v.language->0@)
    &&& !uri.contains('"')
    &&& !chars::holds(uri, "LANGUAGE"@)
}

/// The line of an audio rendition is read as a preset of the audio group, with the variant's own
/// name, language and reference.
#[verifier::rlimit(40)]
pub proof fn written_audio_is_read(v: VariantInfo, uri: Seq<char>, base: UrlView)
    requires
        plain_rendition(v, uri),
    ensures
        hls::audio_line(v, uri).last() == '\n',
        ({
            let line = hls::audio_line(v, uri).drop_last();
            &&& announces_rendition(line, "AUDIO"@, "audio"@, v.id@, true, uri, base)
            &&& v.language matches Some(l) ==> hls_input::quoted(line, "LANGUAGE"@) == Some(l@)
        }),
{
    reveal_strlit("#EXT-X-MEDIA:TYPE=AUDIO,GROUP-ID=\"audio\"");
    reveal_strlit("#EXT-X-MEDIA:TYPE=");
    reveal_strlit("AUDIO");
    reveal_strlit(",GROUP-ID=\"");
    reveal_strlit("audio");
    reveal_strlit("\"");
    reveal_strlit("\",DEFAULT=YES,AUTOSELECT=YES,URI=\"");
    reveal_strlit("\",DEFAULT=");
    reveal_strlit("YES");
    reveal_strlit(",AUTOSELECT=YES,URI=\"");
    reveal_strlit("\"\n");
    let lang = match v.language {
        Some(l) => Some(l@),
        None => None,
    };
    reveal(rendition_start);
    reveal(rendition_text);
    let line = rendition_text("AUDIO"@, "audio"@, lang, v.id@, "YES"@, uri);
    assert("#EXT-X-MEDIA:TYPE=AUDIO,GROUP-ID=\"audio\""@ =~= "#EXT-X-MEDIA:TYPE="@ + "AUDIO"@
        + ",GROUP-ID=\""@ + "audio"@ + "\""@);
    assert("\",DEFAULT=YES,AUTOSELECT=YES,URI=\""@ =~= "\",DEFAULT="@ + "YES"@
        + ",AUTOSELECT=YES,URI=\""@);
    assert(hls::audio_line(v, uri) =~= line.push('\n'));
    assert(hls::audio_line(v, uri).drop_last() =~= line);
    lemma_rendition_group("AUDIO"@, "audio"@, lang, v.id@, "YES"@, uri);
    lemma_rendition_name("AUDIO"@, "audio"@, lang, v.id@, "YES"@, uri);
}

/// The line of a subtitle rendition is read as one of the subtitle group that is not preset, with
/// the variant's own name and reference, in its language or in none that is determined.
#[verifier::rlimit(40)]
pub proof fn written_subtitles_are_read(v: VariantInfo, uri: Seq<char>, base: UrlView)
    requires
        plain_rendition(v, uri),
        v.id@.len() > 0,
    ensures
        hls::subtitle_line(v, uri).last() == '\n',
        ({
            let line = hls::subtitle_line(v, uri).drop_last();
            &&& announces_rendition(line, "SUBTITLES"@, "subs"@, v.id@, false, uri, base)
            &&& hls_input::quoted(line, "LANGUAGE"@) == Some(
                match v.language {
                    Some(l) => l@,
                    None => "und"@,
                },
            )
        }),
{
    reveal_strlit("#EXT-X-MEDIA:TYPE=SUBTITLES,GROUP-ID=\"subs\",LANGUAGE=\"");
    reveal_strlit("#EXT-X-MEDIA:TYPE=");
    reveal_strlit("SUBTITLES");
    reveal_strlit(",GROUP-ID=\"");
    reveal_strlit("subs");
    reveal_strlit("\"");
    reveal_strlit(",LANGUAGE=\"");
    reveal_strlit("\",NAME=\"");
    reveal_strlit(",NAME=\"");
    reveal_strlit("\",DEFAULT=NO,AUTOSELECT=YES,URI=\"");
    reveal_strlit("\",DEFAULT=");
    reveal_strlit("NO");
    reveal_strlit("YES");
    reveal_strlit("und");
    reveal_strlit(",AUTOSELECT=YES,URI=\"");
    reveal_strlit("\"\n");
    let l = hls::language_of(v);
    reveal(rendition_start);
    reveal(rendition_text);
    let line = rendition_text("SUBTITLES"@, "subs"@, Some(l), v.id@, "NO"@, uri);
    assert("#EXT-X-MEDIA:TYPE=SUBTITLES,GROUP-ID=\"subs\",LANGUAGE=\""@ =~= "#EXT-X-MEDIA:TYPE="@
        + "SUBTITLES"@ + ",GROUP-ID=\""@ + "subs"@ + "\""@ + ",LANGUAGE=\""@);
    assert("\",DEFAULT=NO,AUTOSELECT=YES,URI=\""@ =~= "\",DEFAULT="@ + "NO"@
        + ",AUTOSELECT=YES,URI=\""@);
    assert("\",NAME=\""@ =~= "\""@ + ",NAME=\""@);
    assert(hls::subtitle_line(v, uri) =~= line.push('\n'));
    assert(hls::subtitle_line(v, uri).drop_last() =~= line);
    lemma_rendition_group("SUBTITLES"@, "subs"@, Some(l), v.id@, "NO"@, uri);
    lemma_rendition_name("SUBTITLES"@, "subs"@, Some(l), v.id@, "NO"@, uri);
    assert("NO"@ != "YES"@) by {
        assert("NO"@.len() == 2 && "YES"@.len() == 3);
    }
}

/// The reference of the variant at a place, or the default one.
pub open spec fn reference_at(uris: Seq<String>, i: int) -> Seq<char> {
    if i < uris.len() {
        uris[i]@
    } else {
        "variant.m3u8"@
    }
}

/// A master playlist has one rendition for each audio variant and one for each subtitle variant,
/// in order, each with the reference at the variant's own place.
pub proof fn renditions_show_each_variant(variants: Seq<VariantInfo>, uris: Seq<String>, n: nat)
    requires
        n <= variants.len(),
    ensures
        ({
            let a = places(variants, TrackMediaType::Audio, n);
            hls::audio_lines(variants, uris, n) == lines::joined(
                Seq::new(
                    a.len(),
                    |k: int| hls::audio_line(variants[a[k]], reference_at(uris, a[k])),
                ),
            )
        }),
        ({
            let b = places(variants, TrackMediaType::Subtitle, n);
            hls::subtitle_lines(variants, uris, n) == lines::joined(
                Seq::new(
                    b.len(),
                    |k: int| hls::subtitle_line(variants[b[k]], reference_at(uris, b[k])),
                ),
            )
        }),
    decreases n,
{
    reveal(Seq::filter);
    let all = Seq::new(n, |i: int| i);
    let a = places(variants, TrackMediaType::Audio, n);
    let b = places(variants, TrackMediaType::Subtitle, n);
    if n > 0 {
        let m = (n - 1) as nat;
        renditions_show_each_variant(variants, uris, m);
        assert(all.drop_last() =~= Seq::new(m, |i: int| i));
        let c = places(variants, TrackMediaType::Audio, m);
        let d = places(variants, TrackMediaType::Subtitle, m);
        let f = Seq::new(
            a.len(),
            |k: int| hls::audio_line(variants[a[k]], reference_at(uris, a[k])),
        );
        let g = Seq::new(
            b.len(),
            |k: int| hls::subtitle_line(variants[b[k]], reference_at(uris, b[k])),
        );
        if variants[m as int].track_type is Audio {
            assert(a == c.push(m as int));
            assert(f.drop_last() =~= Seq::new(
                c.len(),
                |k: int| hls::audio_line(variants[c[k]], reference_at(uris, c[k])),
            ));
        } else {
            assert(a == c);
        }
        if variants[m as int].track_type is Subtitle {
            assert(b == d.push(m as int));
            assert(g.drop_last() =~= Seq::new(
                d.len(),
                |k: int| hls::subtitle_line(variants[d[k]], reference_at(uris, d[k])),
            ));
        } else {
            assert(b == d);
        }
    }
}

// I-frames.

/// The lines of an I-frame: its duration, where its bytes are, and the reference of its segment.
#[verifier::opaque]
pub open spec fn is_iframe(duration: Seq<char>, range: Seq<char>, f: IFrameSegmentInfo) -> bool {
    &&& decimal::decimal_of(duration) matches Some(d) && -1000 <= 2 * (d.nanos - f.duration.nanos)
        <= 1000
    &&& chars::pieces(range, '@').len() == 2
    &&& chars::number_of(chars::pieces(range, '@')[0], u64::MAX as nat) == Some(
        f.byte_length as nat,
    )
    &&& chars::number_of(chars::pieces(range, '@')[1], u64::MAX as nat) == Some(
        f.byte_offset as nat,
    )
}

proof fn lemma_iframe(f: IFrameSegmentInfo)
    requires
        lines::finite(f.duration),
    ensures
        is_iframe(
            f.duration.fixed(6),
            text::dec(f.byte_length as nat) + "@"@ + text::dec(f.byte_offset as nat),
            f,
        ),
{
    reveal_strlit("@");
    readback::written_decimal_is_read(f.duration, 6);
    assert(decimal::ten_to(3) == 1000) by {
        reveal_with_fuel(decimal::ten_to, 5);
    }
    let a = text::dec(f.byte_length as nat);
    let b = text::dec(f.byte_offset as nat);
    let t = a + "@"@ + b;
    elements::lemma_number_plain(f.byte_length as nat);
    elements::lemma_number_plain(f.byte_offset as nat);
    timeline::written_number_is_read(f.byte_length as nat, u64::MAX as nat);
    timeline::written_number_is_read(f.byte_offset as nat, u64::MAX as nat);
    assert forall|k: int| 0 <= k < t.len() && k != a.len() implies #[trigger] t[k] != '@' by {
        if k < a.len() {
            assert(chars::is_digit(a[k]));
        } else {
            assert(t[k] == b[k - a.len() - 1]);
            assert(chars::is_digit(b[k - a.len() - 1]));
        }
    }
    assert(t =~= a.push('@') + b);
    lemma_two_pieces(a, b, t, '@');
    reveal(is_iframe);
}

/// The text of an I-frame in its playlist.
pub open spec fn iframe_block(duration: Seq<char>, range: Seq<char>, uri: Seq<char>) -> Seq<char> {
    "#EXTINF:"@ + duration + ",\n#EXT-X-BYTERANGE:"@ + range + "\n"@ + uri + "\n"@
}

proof fn lemma_iframe_block(list: Seq<IFrameSegmentInfo>, n: nat)
    requires
        0 < n <= list.len(),
    ensures
        ({
            let f = list[n - 1];
            hls::iframe_lines(list, n) == hls::iframe_lines(list, (n - 1) as nat) + iframe_block(
                f.duration.fixed(6),
                text::dec(f.byte_length as nat) + "@"@ + text::dec(f.byte_offset as nat),
                f.segment_uri@,
            )
        }),
{
    let f = list[n - 1];
    let before = hls::iframe_lines(list, (n - 1) as nat);
    let block = iframe_block(
        f.duration.fixed(6),
        text::dec(f.byte_length as nat) + "@"@ + text::dec(f.byte_offset as nat),
        f.segment_uri@,
    );
    assert(hls::iframe_lines(list, n) =~= before + block);
}

/// An I-frame playlist shows each I-frame in order, with its own duration, the bytes that it has
/// in its segment, and the reference of that segment.
pub proof fn iframes_are_addressed(list: Seq<IFrameSegmentInfo>, n: nat) -> (r: (
    Seq<Seq<char>>,
    Seq<Seq<char>>,
))
    requires
        n <= list.len(),
        forall|i: int| 0 <= i < n ==> lines::finite((#[trigger] list[i]).duration),
    ensures
        r.0.len() == n,
        r.1.len() == n,
        hls::iframe_lines(list, n) == lines::joined(
            Seq::new(n, |k: int| iframe_block(r.0[k], r.1[k], list[k].segment_uri@)),
        ),
        forall|k: int| 0 <= k < n ==> is_iframe(#[trigger] r.0[k], r.1[k], list[k]),
    decreases n,
{
    if n == 0 {
        let none = Seq::<Seq<char>>::empty();
        (none, none)
    } else {
        let m = (n - 1) as nat;
        let (times, ranges) = iframes_are_addressed(list, m);
        let f = list[m as int];
        lemma_iframe(f);
        let d = f.duration.fixed(6);
        let g = text::dec(f.byte_length as nat) + "@"@ + text::dec(f.byte_offset as nat);
        let t = times.push(d);
        let u = ranges.push(g);
        let blocks = Seq::new(n, |k: int| iframe_block(t[k], u[k], list[k].segment_uri@));
        assert(blocks.drop_last() =~= Seq::new(
            m,
            |k: int| iframe_block(times[k], ranges[k], list[k].segment_uri@),
        ));
        lemma_iframe_block(list, n);
        assert(blocks.last() == iframe_block(d, g, f.segment_uri@));
        assert(lines::joined(blocks) == lines::joined(blocks.drop_last()) + blocks.last());
        (t, u)
    }
}

/// Whether the duration of an I-frame can be counted in seconds.
pub open spec fn countable_frame(f: IFrameSegmentInfo) -> bool {
    f.duration.nanos < 1_000_000_000_000_000_000_000_000
}

/// The target duration of an I-frame playlist is the smallest whole number of seconds that no
/// I-frame goes beyond.
pub proof fn iframe_target_covers_every_frame(list: Seq<IFrameSegmentInfo>, n: nat)
    requires
        n <= list.len(),
        forall|i: int| 0 <= i < n ==> countable_frame(#[trigger] list[i]),
    ensures
        ({
            let c = hls::longest(list, n).ceiling();
            &&& forall|i: int|
                0 <= i < n ==> (#[trigger] list[i]).duration.nanos <= c * 1_000_000_000
            &&& c == 0 || exists|i: int|
                0 <= i < n && (#[trigger] list[i]).duration.nanos > (c - 1) * 1_000_000_000
        }),
{
    lemma_longest(list, n);
}

proof fn lemma_longest(list: Seq<IFrameSegmentInfo>, n: nat)
    requires
        n <= list.len(),
        forall|i: int| 0 <= i < n ==> countable_frame(#[trigger] list[i]),
    ensures
        0 <= hls::longest(list, n).nanos < 1_000_000_000_000_000_000_000_000,
        forall|i: int|
            0 <= i < n ==> (#[trigger] list[i]).duration.nanos <= hls::longest(list, n).nanos,
        hls::longest(list, n).nanos == 0 || exists|i: int|
            0 <= i < n && (#[trigger] list[i]).duration == hls::longest(list, n),
    decreases n,
{
    if n > 0 {
        lemma_longest(list, (n - 1) as nat);
        assert(countable_frame(list[n - 1]));
        let before = hls::longest(list, (n - 1) as nat);
        if list[n - 1].duration.nanos > before.nanos {
            assert(list[n - 1].duration == hls::longest(list, n));
        } else if before.nanos != 0 {
            let i = choose|i: int|
                0 <= i < n - 1 && (#[trigger] list[i]).duration == before;
            assert(list[i].duration == hls::longest(list, n));
        }
    }
}


/// The line of an I-frame stream gives a tenth of the variant's bandwidth, and its codecs.
#[verifier::rlimit(40)]
pub proof fn iframe_streams_take_a_tenth(v: VariantInfo)
    requires
        elements::plain_variant(v),
    ensures
        elements::is_tenth(
            hls_input::bare(hls::iframe_stream_line(v), "BANDWIDTH"@),
            v.bandwidth,
        ),
        hls_input::quoted(hls::iframe_stream_line(v), "CODECS"@) == Some(v.codecs@),
{
    reveal_strlit("#EXT-X-I-FRAME-STREAM-INF:BANDWIDTH=");
    reveal_strlit(",CODECS=\"");
    reveal_strlit("\"");
    reveal_strlit("BANDWIDTH");
    reveal_strlit("CODECS");
    reveal_strlit("=");
    reveal_strlit("=\"");
    let n = v.bandwidth as nat / 10;
    let b = text::dec(n);
    let c = v.codecs@;
    elements::lemma_number_plain(n);
    timeline::written_number_is_read(n, u64::MAX as nat);
    let tail = hls::resolution_attr(v.resolution) + ",URI=\"iframes\"\n"@;
    let line = "#EXT-X-I-FRAME-STREAM-INF:BANDWIDTH="@ + b + ",CODECS=\""@ + c + "\""@ + tail;
    assert(line =~= hls::iframe_stream_line(v));
    let a = 36 + b.len() as int;
    assert forall|k: int| 0 <= k < a + 7 && k != 35 implies #[trigger] line[k] != '=' by {
        if 36 <= k < a {
            assert(line[k] == b[k - 36]);
            assert(chars::is_digit(b[k - 36]));
        }
    }
    assert forall|k: int| 0 <= k < b.len() implies #[trigger] b[k] != ',' && b[k] != '"' by {
        assert(chars::is_digit(b[k]));
    }
    assert(line.subrange(26, 36) =~= "BANDWIDTH"@ + "="@);
    assert(line.subrange(36, a) =~= b);
    lines::lemma_first(line, "BANDWIDTH"@, "="@, 26);
    lines::lemma_bare(line, "BANDWIDTH"@, 26, b, a);
    assert(line.subrange(a + 1, a + 9) =~= "CODECS"@ + "=\""@);
    assert(line.subrange(a + 9, a + 9 + c.len()) =~= c);
    elements::lemma_attr(line, "CODECS"@, a + 1, c);
}

} // verus!
