//! How a media playlist starts, and what the lines of playlists are read as.

use crate::chars;
use crate::drm::scheme::EncryptionScheme;
use crate::error::ErrorView;
use crate::manifest::elements;
use crate::manifest::hls;
use crate::manifest::hls_input;
use crate::manifest::hls_input::{MasterState, PlaylistView};
use crate::manifest::lines;
use crate::manifest::types::ManifestState;
use crate::media::container::ContainerFormat;
use crate::text;
use crate::url::UrlView;
use vstd::prelude::*;

verus! {

/// The protocol version that a playlist needs.
pub open spec fn version_for(s: ManifestState) -> nat {
    if s.parts@.len() > 0 || s.part_target_duration is Some {
        9
    } else if s.container_format == ContainerFormat::Ts {
        3
    } else {
        7
    }
}

/// The number of the first segment that a playlist shows: with a window over a live stream, that
/// of the first segment in the window, else the one that the manifest counts from.
pub open spec fn first_number(s: ManifestState) -> u32 {
    let windowed = s.phase is Live && (s.dvr_window_duration matches Some(d) && d.nanos > 0);
    if windowed && s.shown_segments().len() > 0 {
        s.shown_segments()[0].number
    } else {
        s.media_sequence
    }
}

/// A media playlist starts with its version, with the smallest whole number of seconds that its
/// target duration does not go beyond, and with the number of its first segment.
#[verifier::rlimit(40)]
pub proof fn playlists_start_with_their_limits(s: ManifestState) -> (r: (nat, Seq<char>))
    requires
        s.target_duration.nanos < 1_000_000_000_000_000_000_000_000,
    ensures
        hls::media_playlist(s) == "#EXTM3U\n#EXT-X-VERSION:"@ + text::dec(version_for(s))
            + "\n#EXT-X-TARGETDURATION:"@ + text::dec(r.0) + "\n#EXT-X-MEDIA-SEQUENCE:"@
            + text::dec(first_number(s) as nat) + "\n"@ + r.1,
        s.target_duration.nanos <= 1_000_000_000 * r.0,
        r.0 > 0 ==> s.target_duration.nanos > 1_000_000_000 * (r.0 - 1),
{
    let c = s.target_duration.ceiling();
    let v = text::dec(version_for(s));
    reveal_strlit("#EXTM3U\n");
    reveal_strlit("#EXTM3U\n#EXT-X-VERSION:");
    reveal_strlit("#EXT-X-VERSION:9\n");
    reveal_strlit("#EXT-X-VERSION:3\n");
    reveal_strlit("#EXT-X-VERSION:7\n");
    reveal_strlit("#EXT-X-TARGETDURATION:");
    reveal_strlit("\n#EXT-X-TARGETDURATION:");
    assert(v =~= seq![text::digit(version_for(s) as int)]);
    let start = "#EXTM3U\n#EXT-X-VERSION:"@ + v + "\n#EXT-X-TARGETDURATION:"@ + text::dec(c)
        + "\n#EXT-X-MEDIA-SEQUENCE:"@ + text::dec(first_number(s) as nat) + "\n"@;
    assert("#EXTM3U\n"@ + hls::version_line(s) + "#EXT-X-TARGETDURATION:"@
        =~= "#EXTM3U\n#EXT-X-VERSION:"@ + v + "\n#EXT-X-TARGETDURATION:"@);
    let more = hls::control_tag(s.server_control) + hls::part_target_line(s.part_target_duration);
    assert(hls::playlist_head(s) =~= start + more);
    if s.phase is AwaitingFirstSegment {
        (c, more)
    } else {
        let rest = more + hls::type_line(s) + "#EXT-X-INDEPENDENT-SEGMENTS\n"@ + hls::first_keys(s)
            + hls::map_line(s) + hls::all_segment_lines(
            s,
            s.shown_segments(),
            s.shown_segments().len(),
        ) + hls::end_line(s);
        assert(hls::media_playlist(s) =~= start + rest);
        (c, rest)
    }
}

/// Before its segments a playlist says that it is complete where it is, or that it only grows
/// where it is live and nothing falls out of it; with a clear lead it says that nothing is
/// encrypted yet, else it gives the manifest's keys.
pub proof fn playlists_tell_how_they_grow(s: ManifestState) -> (r: (Seq<char>, Seq<char>))
    requires
        !(s.phase is AwaitingFirstSegment),
    ensures
        ({
            let windowed = s.dvr_window_duration matches Some(d) && d.nanos > 0;
            let kind = if s.phase is Complete {
                "#EXT-X-PLAYLIST-TYPE:VOD\n"@
            } else if s.phase is Live && !windowed {
                "#EXT-X-PLAYLIST-TYPE:EVENT\n"@
            } else {
                Seq::empty()
            };
            let keys = match s.drm_info {
                Some(d) => if s.clear_lead_boundary is Some {
                    "#EXT-X-KEY:METHOD=NONE\n"@
                } else {
                    hls::keys_text(s, d)
                },
                None => Seq::empty(),
            };
            hls::media_playlist(s) == r.0 + kind + "#EXT-X-INDEPENDENT-SEGMENTS\n"@ + keys + r.1
        }),
{
    let rest = hls::map_line(s) + hls::all_segment_lines(
        s,
        s.shown_segments(),
        s.shown_segments().len(),
    ) + hls::end_line(s);
    let start = hls::playlist_head(s) + hls::type_line(s) + "#EXT-X-INDEPENDENT-SEGMENTS\n"@
        + hls::first_keys(s);
    assert(hls::media_playlist(s) =~= start + rest);
    (hls::playlist_head(s), rest)
}

// Keys that are read.

/// A key line whose method is one for samples tells the scheme, and changes nothing else.
pub proof fn sample_keys_tell_the_scheme(p: PlaylistView, base: UrlView, line: Seq<char>)
    requires
        chars::starts(line, "#EXT-X-KEY:"@),
    ensures
        hls_input::bare(line, "METHOD"@) == Some("SAMPLE-AES-CTR"@) ==> p.with_key(base, line) == Ok::<
            PlaylistView,
            ErrorView,
        >(PlaylistView { scheme: Some(EncryptionScheme::Cenc), ..p }),
        hls_input::bare(line, "METHOD"@) == Some("SAMPLE-AES"@) ==> p.with_key(base, line) == Ok::<
            PlaylistView,
            ErrorView,
        >(PlaylistView { scheme: Some(EncryptionScheme::Cbcs), ..p }),
{
    reveal_strlit("SAMPLE-AES-CTR");
    reveal_strlit("SAMPLE-AES");
    assert("SAMPLE-AES-CTR"@.len() == 14 && "SAMPLE-AES"@.len() == 10);
}

/// The scheme under which a manifest's samples are encrypted is read from its key lines.
pub proof fn written_schemes_are_read(
    p: PlaylistView,
    base: UrlView,
    line: Seq<char>,
    scheme: EncryptionScheme,
    uri: Seq<char>,
    kid: Seq<char>,
    format: Seq<char>,
)
    requires
        scheme.encrypts(),
        lines::names_key(line, lines::method_for(scheme), uri, kid, format),
    ensures
        p.with_key(base, line) == Ok::<PlaylistView, ErrorView>(
            PlaylistView { scheme: Some(scheme), ..p },
        ),
{
    sample_keys_tell_the_scheme(p, base, line);
}

/// The key line of a transport stream, without its line break, is read as the place of the key
/// for whole segments.
#[verifier::rlimit(40)]
pub proof fn written_segment_keys_are_read(p: PlaylistView, base: UrlView, uri: Seq<char>)
    requires
        !uri.contains('"'),
        !uri.contains('='),
    ensures
        hls::ts_key(uri).last() == '\n',
        match p.with_key(base, hls::ts_key(uri).drop_last()) {
            Ok(q) => hls_input::resolved(base, uri) == Ok::<Seq<char>, ErrorView>(q.key_url->0)
                && q == (PlaylistView { key_url: Some(q.key_url->0), ..p }),
            Err(e) => hls_input::resolved(base, uri) == Err::<Seq<char>, ErrorView>(e),
        },
{
    reveal_strlit("#EXT-X-KEY:METHOD=AES-128,URI=\"");
    reveal_strlit("\"\n");
    reveal_strlit("METHOD");
    reveal_strlit("URI");
    reveal_strlit("IV");
    reveal_strlit("=");
    reveal_strlit("=\"");
    reveal_strlit("AES-128");
    reveal_strlit("SAMPLE-AES");
    reveal_strlit("SAMPLE-AES-CTR");
    let line = hls::ts_key(uri).drop_last();
    assert(line =~= "#EXT-X-KEY:METHOD=AES-128,URI=\""@ + uri + seq!['"']);
    let n = uri.len() as int;
    assert forall|k: int| 0 <= k < line.len() && k != 17 && k != 29 implies #[trigger] line[k]
        != '=' by {
        if 31 <= k < 31 + n {
            assert(line[k] == uri[k - 31]);
            assert(uri.contains(uri[k - 31]));
        }
    }
    assert(line.subrange(11, 18) =~= "METHOD"@ + "="@);
    assert(line.subrange(18, 25) =~= "AES-128"@);
    assert(line.subrange(26, 31) =~= "URI"@ + "=\""@);
    assert(line.subrange(31, 31 + n) =~= uri);
    lines::lemma_first(line, "METHOD"@, "="@, 11);
    lines::lemma_bare(line, "METHOD"@, 11, "AES-128"@, 25);
    elements::lemma_attr(line, "URI"@, 26, uri);
    let s = "IV"@ + "="@;
    lines::lemma_first(line, "IV"@, "="@, line.len() - 2);
    assert forall|k: int| 0 <= k implies !(#[trigger] chars::stands_at(line, s, k)) by {
        if k >= line.len() - 2 {
            assert(k + s.len() > line.len());
        }
    }
    lines::lemma_not_found(line, s, 0);
    assert("AES-128"@.len() == 7 && "SAMPLE-AES"@.len() == 10 && "SAMPLE-AES-CTR"@.len() == 14);
}

// Lines that are read one after the other.

/// A part belongs to the segment that comes next, and is counted from zero in it; a segment ends
/// the count, and its duration goes by.
pub proof fn parts_are_counted_in_their_segment(p: PlaylistView, base: UrlView, line: Seq<char>)
    requires
        p.urls.len() <= u32::MAX,
        p.open_parts <= u32::MAX,
    ensures
        p.step(base, line) matches Ok(q) ==> {
            &&& q.parts.len() > p.parts.len() ==> {
                &&& q.parts.drop_last() == p.parts
                &&& q.parts.last().segment_number == p.urls.len()
                &&& q.parts.last().part_index == p.open_parts
                &&& q.open_parts == p.open_parts + 1
                &&& q.urls == p.urls
            }
            &&& q.urls.len() > p.urls.len() ==> {
                &&& q.urls.drop_last() == p.urls
                &&& p.pending is Some
                &&& q.durations == p.durations.push(p.pending->0)
                &&& q.elapsed == p.elapsed.sum(p.pending->0)
                &&& q.open_parts == 0
                &&& q.parts == p.parts
            }
            &&& q.breaks.len() > p.breaks.len() ==> {
                &&& q.breaks.drop_last() == p.breaks
                &&& q.breaks.last().segment_number == p.urls.len()
                &&& q.breaks.last().presentation_time == p.elapsed
            }
            &&& q.parts.len() == p.parts.len() ==> q.parts == p.parts
            &&& q.urls.len() == p.urls.len() ==> q.urls == p.urls && q.elapsed == p.elapsed
        },
{
    if let Ok(q) = p.step(base, line) {
        if q.parts.len() > p.parts.len() {
            assert(q.parts.drop_last() =~= p.parts);
        }
        if q.urls.len() > p.urls.len() {
            assert(q.urls.drop_last() =~= p.urls);
        }
        if q.breaks.len() > p.breaks.len() {
            assert(q.breaks.drop_last() =~= p.breaks);
        }
    }
}

/// The reference on the line behind a stream belongs to that stream; a reference that stands
/// behind no stream is passed over.
pub proof fn references_belong_to_the_stream_before(m: MasterState, base: UrlView, line: Seq<char>, uri: Seq<char>)
    requires
        chars::starts(line, "#EXT-X-STREAM-INF:"@),
        uri.len() > 0,
        uri[0] != '#',
    ensures
        m.step(base, line) matches Ok(q) && match q.step(base, uri) {
            Ok(r) => {
                &&& r.found.variants == m.found.variants.push(hls_input::variant_of(line))
                &&& hls_input::resolved(base, uri) == Ok::<Seq<char>, ErrorView>(
                    r.found.variant_uris.last(),
                )
                &&& r.found.variant_uris.drop_last() == m.found.variant_uris
                &&& r.pending is None
                &&& r.step(base, uri) == Ok::<MasterState, ErrorView>(r)
            },
            Err(e) => hls_input::resolved(base, uri) == Err::<Seq<char>, ErrorView>(e),
        },
{
    reveal_strlit("#EXT-X-STREAM-INF:");
    reveal_strlit("#EXT-X-MEDIA:");
    if chars::starts(uri, "#EXT-X-STREAM-INF:"@) {
        assert(uri.subrange(0, 18)[0] == uri[0]);
    }
    if chars::starts(uri, "#EXT-X-MEDIA:"@) {
        assert(uri.subrange(0, 13)[0] == uri[0]);
    }
    let q = m.step(base, line)->Ok_0;
    if let Ok(r) = q.step(base, uri) {
        assert(r.found.variant_uris.drop_last() =~= m.found.variant_uris);
    }
}

} // verus!
