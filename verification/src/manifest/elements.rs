//! What the elements of an MPD tell of a manifest.

use crate::chars;
use crate::decimal::Decimal;
use crate::manifest::dash;
use crate::manifest::hls_input;
use crate::manifest::lines;
use crate::manifest::timeline;
use crate::manifest::types::{
    AdBreakInfo, ManifestDrmInfo, ManifestState, SegmentInfo, TrackMediaType, VariantInfo,
};
use crate::text;
use vstd::prelude::*;

verus! {

/// An attribute is found where its name stands first before an equals sign.
pub proof fn lemma_attr(line: Seq<char>, attr: Seq<char>, at: int, value: Seq<char>)
    requires
        0 <= at,
        attr.len() > 0,
        chars::stands_at(line, attr + "=\""@, at),
        forall|k: int|
            attr.len() <= k < at + attr.len() && #[trigger] line[k] == '=' ==> line[k - 1]
                != attr.last() || line[k - attr.len()] != attr[0],
        at + attr.len() + 2 + value.len() < line.len(),
        line.subrange(at + attr.len() + 2, (at + attr.len() + 2 + value.len()) as int) == value,
        line[(at + attr.len() + 2 + value.len()) as int] == '"',
        !value.contains('"'),
    ensures
        hls_input::quoted(line, attr) == Some(value),
{
    reveal_strlit("=\"");
    lines::lemma_first(line, attr, "=\""@, at);
    lines::lemma_quoted(line, attr, at, value);
}

/// Whether a text counts a time in parts of one `scale`th, rounded down.
pub open spec fn counts(t: Option<Seq<char>>, time: Decimal, scale: nat) -> bool {
    &&& t is Some
    &&& chars::number_of(t->0, u64::MAX as nat) matches Some(n) && n * 1_000_000_000 <= time.nanos
        * scale < (n + 1) * 1_000_000_000
}

/// Whether a time is not before the start and is not beyond what 64 bits count.
pub open spec fn countable(time: Decimal) -> bool {
    0 <= time.nanos < 100_000_000_000_000_000_000_000
}

proof fn lemma_counts(time: Decimal, scale: nat)
    requires
        countable(time),
        scale == 1000 || scale == 90000,
    ensures
        counts(Some(text::dec(time.in_ticks(scale))), time, scale),
        !text::dec(time.in_ticks(scale)).contains('"'),
        !text::dec(time.in_ticks(scale)).contains('='),
{
    let n = time.in_ticks(scale);
    assert(n == (time.nanos * scale) / 1_000_000_000);
    timeline::written_number_is_read(n, u64::MAX as nat);
    lemma_number_plain(n);
}

/// A number in decimal holds digits alone.
pub proof fn lemma_number_plain(n: nat)
    ensures
        text::dec(n).len() > 0,
        !text::dec(n).contains('"'),
        !text::dec(n).contains('='),
        forall|k: int| 0 <= k < text::dec(n).len() ==> chars::is_digit(#[trigger] text::dec(n)[k]),
{
    timeline::lemma_dec(n);
    assert forall|k: int| 0 <= k < text::dec(n).len() implies #[trigger] text::dec(n)[k] != '"'
        && text::dec(n)[k] != '=' by {
        assert(chars::is_digit(text::dec(n)[k]));
    }
}

// The timeline.

/// The entry of a segment in the timeline.
pub open spec fn is_entry(e: Seq<char>, seg: SegmentInfo) -> bool {
    counts(hls_input::quoted(e, "d"@), seg.duration, 1000)
}

proof fn lemma_entry(seg: SegmentInfo)
    requires
        countable(seg.duration),
    ensures
        is_entry(
            "          <S d=\""@ + text::dec(seg.duration.in_ticks(1000)) + "\"/>\n"@,
            seg,
        ),
{
    reveal_strlit("          <S d=\"");
    reveal_strlit("\"/>\n");
    reveal_strlit("d");
    reveal_strlit("=\"");
    lemma_counts(seg.duration, 1000);
    let n = text::dec(seg.duration.in_ticks(1000));
    let e = "          <S d=\""@ + n + "\"/>\n"@;
    assert(e.subrange(13, 16) =~= "d"@ + "=\""@);
    assert(e.subrange(16, 16 + n.len() as int) =~= n);
    lemma_attr(e, "d"@, 13, n);
}

/// The timeline of an MPD has one entry for each segment, in order, which counts that segment's
/// own duration in milliseconds.
pub proof fn timeline_counts_each_segment(segments: Seq<SegmentInfo>, n: nat) -> (entries: Seq<
    Seq<char>,
>)
    requires
        n <= segments.len(),
        forall|i: int| 0 <= i < n ==> countable((#[trigger] segments[i]).duration),
    ensures
        entries.len() == n,
        dash::timeline(segments, n) == lines::joined(entries),
        forall|i: int| 0 <= i < n ==> is_entry(#[trigger] entries[i], segments[i]),
    decreases n,
{
    if n == 0 {
        Seq::empty()
    } else {
        let before = timeline_counts_each_segment(segments, (n - 1) as nat);
        let seg = segments[n - 1];
        let e = "          <S d=\""@ + text::dec(seg.duration.in_ticks(1000)) + "\"/>\n"@;
        lemma_entry(seg);
        let entries = before.push(e);
        assert(entries.drop_last() =~= before);
        assert(dash::timeline(segments, n) =~= lines::joined(before) + e);
        entries
    }
}

// Ad breaks.

/// Whether an event tells of an ad break: when it is, how long it lasts, and which one it is.
pub open spec fn is_event(e: Seq<char>, b: AdBreakInfo) -> bool {
    &&& counts(hls_input::quoted(e, "presentationTime"@), b.presentation_time, 90000)
    &&& match b.duration {
        Some(d) => counts(hls_input::quoted(e, " duration"@), d, 90000),
        None => hls_input::quoted(e, " duration"@) == Some(text::dec(0)),
    }
    &&& hls_input::quoted(e, " id"@) == Some(text::dec(b.id as nat))
}

#[verifier::spinoff_prover]
#[verifier::rlimit(60)]
proof fn lemma_event(b: AdBreakInfo)
    requires
        countable(b.presentation_time),
        b.duration is Some ==> countable(b.duration->0),
    ensures
        is_event(dash::event_xml(b), b),
{
    reveal_strlit("      <Event presentationTime=\"");
    reveal_strlit("\" duration=\"");
    reveal_strlit("\" id=\"");
    reveal_strlit("\"");
    reveal_strlit("=\"");
    reveal_strlit("presentationTime");
    reveal_strlit(" duration");
    reveal_strlit(" id");
    lemma_counts(b.presentation_time, 90000);
    let t = text::dec(b.presentation_time.in_ticks(90000));
    let d = text::dec(
        match b.duration {
            Some(d) => d.in_ticks(90000),
            None => 0,
        },
    );
    if b.duration is Some {
        lemma_counts(b.duration->0, 90000);
    }
    let i = text::dec(b.id as nat);
    lemma_number_plain(b.presentation_time.in_ticks(90000));
    lemma_number_plain(
        match b.duration {
            Some(d) => d.in_ticks(90000),
            None => 0,
        },
    );
    lemma_number_plain(b.id as nat);
    let tail = match b.scte35_cmd {
        Some(cmd) => ">"@ + cmd@ + "</Event>\n"@,
        None => "/>\n"@,
    };
    let e = "      <Event presentationTime=\""@ + t + "\" duration=\""@ + d + "\" id=\""@ + i + "\""@
        + tail;
    assert(e == dash::event_xml(b));
    let a = 31 + t.len() as int;
    assert forall|k: int| 31 <= k < a implies #[trigger] e[k] == t[k - 31] by {}
    let c = a + 12 + d.len() as int;
    assert forall|k: int| a + 12 <= k < c implies #[trigger] e[k] == d[k - a - 12] by {}
    assert forall|k: int| 0 <= k < c + 4 && k != 29 && k != a + 10 implies #[trigger] e[k] != '=' by {
        if 31 <= k < a {
            assert(chars::is_digit(t[k - 31]));
        } else if a + 12 <= k < c {
            assert(chars::is_digit(d[k - a - 12]));
        }
    }
    assert(e.subrange(13, 31) =~= "presentationTime"@ + "=\""@);
    assert(e.subrange(31, a as int) =~= t);
    lemma_attr(e, "presentationTime"@, 13, t);
    assert(e.subrange(a + 1, a + 12) =~= " duration"@ + "=\""@);
    assert(e.subrange(a + 12, c as int) =~= d);
    lemma_attr(e, " duration"@, a + 1, d);
    assert(e.subrange(c + 1, c + 6) =~= " id"@ + "=\""@);
    assert(e.subrange(c + 6, (c + 6 + i.len()) as int) =~= i);
    lemma_attr(e, " id"@, c + 1, i);
}

/// The event stream has one event for each ad break, in order, with that break's own times.
pub proof fn events_tell_each_break(list: Seq<AdBreakInfo>, n: nat) -> (events: Seq<Seq<char>>)
    requires
        n <= list.len(),
        forall|i: int|
            0 <= i < n ==> countable((#[trigger] list[i]).presentation_time) && (list[i].duration
                is Some ==> countable(list[i].duration->0)),
    ensures
        events.len() == n,
        dash::events_xml(list, n) == lines::joined(events),
        forall|i: int| 0 <= i < n ==> is_event(#[trigger] events[i], list[i]),
    decreases n,
{
    if n == 0 {
        Seq::empty()
    } else {
        let before = events_tell_each_break(list, (n - 1) as nat);
        lemma_event(list[n - 1]);
        let events = before.push(dash::event_xml(list[n - 1]));
        assert(events.drop_last() =~= before);
        events
    }
}

// Representations.

/// Whether a variant's texts can stand in attributes.
pub open spec fn plain_variant(v: VariantInfo) -> bool {
    &&& !v.id@.contains('"')
    &&& !v.id@.contains('=')
    &&& !v.codecs@.contains('"')
    &&& !v.codecs@.contains('=')
}

/// Whether an element tells a variant's own identifier, bandwidth, codecs and, for video, size.
pub open spec fn is_representation(e: Seq<char>, v: VariantInfo) -> bool {
    &&& hls_input::quoted(e, " id"@) == Some(v.id@)
    &&& hls_input::quoted(e, " bandwidth"@) == Some(text::dec(v.bandwidth as nat))
    &&& v.codecs@.len() > 0 ==> hls_input::quoted(e, " codecs"@) == Some(v.codecs@)
    &&& v.track_type is Video && v.codecs@.len() > 0 ==> match v.resolution {
        Some((w, h)) => {
            &&& hls_input::quoted(e, " width"@) == Some(text::dec(w as nat))
            &&& hls_input::quoted(e, " height"@) == Some(text::dec(h as nat))
        },
        None => true,
    }
}

#[verifier::spinoff_prover]
#[verifier::rlimit(80)]
proof fn lemma_representation(v: VariantInfo)
    requires
        plain_variant(v),
    ensures
        is_representation(dash::representation(v, false), v),
{
    reveal_strlit("      <Representation id=\"");
    reveal_strlit("\" bandwidth=\"");
    reveal_strlit("\"");
    reveal_strlit(" codecs=\"");
    reveal_strlit(" width=\"");
    reveal_strlit("\" height=\"");
    reveal_strlit("=\"");
    reveal_strlit(" id");
    reveal_strlit(" bandwidth");
    reveal_strlit(" codecs");
    reveal_strlit(" width");
    reveal_strlit(" height");
    let e = dash::representation(v, false);
    let id = v.id@;
    let w = text::dec(v.bandwidth as nat);
    lemma_number_plain(v.bandwidth as nat);
    let head = "      <Representation id=\""@ + id + "\" bandwidth=\""@ + w + "\""@;
    let codecs = dash::codecs_attr(v.codecs@);
    let size = if v.track_type is Video {
        dash::size_attrs(v.resolution)
    } else {
        Seq::empty()
    };
    let tail = (if v.track_type is Video {
        dash::rate_attr(v.frame_rate)
    } else {
        Seq::empty()
    }) + ">\n      </Representation>\n"@;
    assert(e =~= head + codecs + size + tail);
    assert forall|k: int| 0 <= k < head.len() implies #[trigger] e[k] == head[k] by {}
    let a = 26 + id.len() as int;
    let b = a + 13 + w.len() as int;
    assert forall|k: int| 26 <= k < a implies #[trigger] e[k] == id[k - 26] && e[k] != '=' by {
        assert(e[k] == head[k]);
        assert(id.contains(id[k - 26]));
    }
    assert forall|k: int| a + 13 <= k < b implies #[trigger] e[k] == w[k - a - 13] && e[k] != '=' by {
        assert(e[k] == head[k]);
        assert(chars::is_digit(w[k - a - 13]));
    }
    assert(head.len() == b + 1);
    assert forall|k: int| 0 <= k <= b && k != 24 && k != a + 11 implies #[trigger] e[k] != '=' by {
        if k < 26 {
        } else if k < a {
        } else if k < a + 13 {
        } else if k < b {
        }
    }
    assert(e.subrange(21, 26) =~= " id"@ + "=\""@);
    assert(e.subrange(26, a as int) =~= id);
    lemma_attr(e, " id"@, 21, id);
    assert(e.subrange(a + 1, a + 13) =~= " bandwidth"@ + "=\""@);
    assert(e.subrange(a + 13, b as int) =~= w);
    lemma_attr(e, " bandwidth"@, a + 1, w);
    if v.codecs@.len() > 0 {
        let c = v.codecs@;
        assert(e.subrange(b + 1, b + 10) =~= " codecs"@ + "=\""@);
        assert(e.subrange(b + 10, (b + 10 + c.len()) as int) =~= c);
        lemma_attr(e, " codecs"@, b + 1, c);
        let d = b + 11 + c.len() as int;
        assert forall|k: int| b + 10 <= k < d - 1 implies #[trigger] e[k] == c[k - b - 10] && e[k]
            != '=' by {
            assert(c.contains(c[k - b - 10]));
        }
        if v.track_type is Video && v.resolution is Some {
            let (x, y) = v.resolution->0;
            let p = text::dec(x as nat);
            let q = text::dec(y as nat);
            lemma_number_plain(x as nat);
            lemma_number_plain(y as nat);
            assert(size =~= " width=\""@ + p + "\" height=\""@ + q + "\""@);
            assert(e.subrange(d as int, d + 8) =~= " width"@ + "=\""@);
            assert(e.subrange(d + 8, (d + 8 + p.len()) as int) =~= p);
            assert forall|k: int| 0 <= k < d + 6 && k != 24 && k != a + 11 && k != b + 8 implies
                #[trigger] e[k] != '=' by {
                if k > b && k < b + 10 {
                } else if b + 10 <= k < d - 1 {
                } else if k >= d - 1 {
                }
            }
            assert(e[a + 11 - 6] == 'd');
            lemma_attr(e, " width"@, d as int, p);
            let h = d + 8 + p.len() as int;
            assert forall|k: int| d + 8 <= k < h implies #[trigger] e[k] == p[k - d - 8] && e[k]
                != '=' by {
                assert(chars::is_digit(p[k - d - 8]));
            }
            assert(e.subrange(h + 1, h + 10) =~= " height"@ + "=\""@);
            assert(e.subrange(h + 10, (h + 10 + q.len()) as int) =~= q);
            assert forall|k: int|
                0 <= k < h + 8 && k != 24 && k != a + 11 && k != b + 8 && k != d + 6 implies
                #[trigger] e[k] != '=' by {
                if k < d + 6 {
                } else if d + 8 <= k < h {
                } else if k >= h {
                }
            }
            lemma_attr(e, " height"@, h + 1, q);
        }
    }
}

/// The variants of a kind.
pub open spec fn of_kind(variants: Seq<VariantInfo>, kind: TrackMediaType) -> Seq<VariantInfo> {
    variants.filter(|v: VariantInfo| v.track_type == kind)
}

/// A set has one representation for each variant of its kind, in order, which tells that
/// variant's own details.
pub proof fn representations_tell_each_variant(
    variants: Seq<VariantInfo>,
    kind: TrackMediaType,
    n: nat,
) -> (elements: Seq<Seq<char>>)
    requires
        n <= variants.len(),
        forall|i: int| 0 <= i < n ==> plain_variant(#[trigger] variants[i]),
    ensures
        dash::representations(variants, kind, false, n) == lines::joined(elements),
        ({
            let shown = of_kind(variants.take(n as int), kind);
            &&& elements.len() == shown.len()
            &&& forall|i: int|
                0 <= i < shown.len() ==> is_representation(#[trigger] elements[i], shown[i])
        }),
    decreases n,
{
    reveal(Seq::filter);
    let t = variants.take(n as int);
    if n == 0 {
        Seq::empty()
    } else {
        let before = representations_tell_each_variant(variants, kind, (n - 1) as nat);
        assert(t.drop_last() =~= variants.take(n - 1));
        let v = variants[n - 1];
        if v.track_type == kind {
            lemma_representation(v);
            let elements = before.push(dash::representation(v, false));
            assert(elements.drop_last() =~= before);
            assert(of_kind(t, kind) == of_kind(variants.take(n - 1), kind).push(v));
            elements
        } else {
            assert(of_kind(t, kind) == of_kind(variants.take(n - 1), kind));
            before
        }
    }
}

// Durations.

proof fn lemma_hours(n: nat)
    ensures
        n / 3_600_000_000_000 * 3_600_000_000_000 + (n % 3_600_000_000_000) / 60_000_000_000
            * 60_000_000_000 + n % 60_000_000_000 == n,
        (n % 3_600_000_000_000) / 60_000_000_000 < 60,
{
    let rest = n % 3_600_000_000_000;
    assert(n == n / 3_600_000_000_000 * 3_600_000_000_000 + rest);
    assert(rest % 60_000_000_000 == n % 60_000_000_000) by {
        vstd::arithmetic::div_mod::lemma_mod_mod(n as int, 60_000_000_000, 60);
    }
}

/// A duration names its hours, minutes and seconds, which add up to it.
pub proof fn durations_add_up(d: Decimal) -> (at: (nat, nat, Decimal))
    requires
        0 < d.nanos < 100_000_000_000_000_000_000_000,
    ensures
        ({
            let (hours, minutes, secs) = at;
            &&& minutes < 60
            &&& 0 <= secs.nanos < 60_000_000_000
            &&& hours * 3_600_000_000_000 + minutes * 60_000_000_000 + secs.nanos == d.nanos
            &&& dash::iso8601(d) == "PT"@ + (if hours > 0 {
                text::dec(hours) + "H"@
            } else {
                Seq::empty()
            }) + (if minutes > 0 {
                text::dec(minutes) + "M"@
            } else {
                Seq::empty()
            }) + (if secs.nanos > 0 {
                secs.fixed(3) + "S"@
            } else {
                Seq::empty()
            })
        }),
{
    let hours = d.nanos as nat / 3_600_000_000_000;
    let minutes = (d.nanos as nat % 3_600_000_000_000) / 60_000_000_000;
    let secs = Decimal { nanos: (d.nanos as nat % 60_000_000_000) as i128 };
    lemma_hours(d.nanos as nat);
    (hours, minutes, secs)
}

/// A key identifier is written in five groups, with the same digits in the same order.
pub proof fn hyphens_part_the_digits(kid: Seq<char>)
    requires
        kid.len() == 32,
    ensures
        dash::hyphenated(kid).len() == 36,
        forall|i: int|
            0 <= i < 32 ==> #[trigger] kid[i] == dash::hyphenated(kid)[i + (if i < 8 {
                0
            } else if i < 20 {
                i / 4 - 1
            } else {
                4
            })],
        dash::hyphenated(kid)[8] == '-',
        dash::hyphenated(kid)[13] == '-',
        dash::hyphenated(kid)[18] == '-',
        dash::hyphenated(kid)[23] == '-',
{
    reveal_strlit("-");
}

// Templates and protection.

/// A segment template with what varies in it.
#[verifier::opaque]
spec fn template_text(init: Seq<char>, media: Seq<char>, tail: Seq<char>) -> Seq<char> {
    "      <SegmentTemplate timescale=\"1000\" initialization=\""@ + init + "\" media=\""@ + media
        + "\" startNumber=\"0\""@ + tail
}

/// What stands where in a segment template.
#[verifier::spinoff_prover]
#[verifier::rlimit(60)]
proof fn lemma_template_marks(init: Seq<char>, media: Seq<char>, tail: Seq<char>)
    requires
        !init.contains('='),
        !media.contains('='),
    ensures
        ({
            let t = template_text(init, media, tail);
            let a = 56 + init.len() as int;
            let b = a + 9 + media.len() as int;
            &&& t.len() >= b + 17
            &&& forall|k: int|
                0 <= k < b + 14 && k != 32 && k != 54 && k != a + 7 && k != b + 13
                    ==> #[trigger] t[k] != '='
            &&& t[31] == 'e' && t[53] == 'n' && t[a + 6] == 'a'
            &&& t.subrange(22, 34) == " timescale"@ + "=\""@
            &&& t.subrange(34, 38) == "1000"@
            &&& t[38] == '"'
            &&& t.subrange(39, 56) == " initialization"@ + "=\""@
            &&& t.subrange(56, a) == init
            &&& t[a] == '"'
            &&& t.subrange(a + 1, a + 9) == " media"@ + "=\""@
            &&& t.subrange(a + 9, b) == media
            &&& t[b] == '"'
            &&& t.subrange(b + 1, b + 15) == " startNumber"@ + "=\""@
            &&& t.subrange(b + 15, b + 16) == "0"@
            &&& t[b + 16] == '"'
        }),
{
    reveal(template_text);
    reveal_strlit("      <SegmentTemplate timescale=\"1000\" initialization=\"");
    reveal_strlit("\" media=\"");
    reveal_strlit("\" startNumber=\"0\"");
    reveal_strlit(" timescale");
    reveal_strlit(" initialization");
    reveal_strlit(" media");
    reveal_strlit(" startNumber");
    reveal_strlit("1000");
    reveal_strlit("0");
    reveal_strlit("=\"");
    let t = template_text(init, media, tail);
    let a = 56 + init.len() as int;
    let b = a + 9 + media.len() as int;
    assert forall|k: int|
        0 <= k < b + 14 && k != 32 && k != 54 && k != a + 7 && k != b + 13 implies #[trigger] t[k]
        != '=' by {
        if 56 <= k < a {
            assert(t[k] == init[k - 56]);
            assert(init.contains(init[k - 56]));
        } else if a + 9 <= k < b {
            assert(t[k] == media[k - a - 9]);
            assert(media.contains(media[k - a - 9]));
        }
    }
    assert(t.subrange(22, 34) =~= " timescale"@ + "=\""@);
    assert(t.subrange(34, 38) =~= "1000"@);
    assert(t.subrange(39, 56) =~= " initialization"@ + "=\""@);
    assert(t.subrange(56, a) =~= init);
    assert(t.subrange(a + 1, a + 9) =~= " media"@ + "=\""@);
    assert(t.subrange(a + 9, b) =~= media);
    assert(t.subrange(b + 1, b + 15) =~= " startNumber"@ + "=\""@);
    assert(t.subrange(b + 15, b + 16) =~= "0"@);
}

/// The attributes of a segment template.
#[verifier::spinoff_prover]
#[verifier::rlimit(60)]
proof fn lemma_template_attrs(init: Seq<char>, media: Seq<char>, tail: Seq<char>)
    requires
        !init.contains('='),
        !media.contains('='),
        !init.contains('"'),
        !media.contains('"'),
    ensures
        ({
            let t = template_text(init, media, tail);
            &&& hls_input::quoted(t, " timescale"@) == Some("1000"@)
            &&& hls_input::quoted(t, " initialization"@) == Some(init)
            &&& hls_input::quoted(t, " media"@) == Some(media)
            &&& hls_input::quoted(t, " startNumber"@) == Some("0"@)
        }),
{
    lemma_template_marks(init, media, tail);
    let t = template_text(init, media, tail);
    let a = 56 + init.len() as int;
    let b = a + 9 + media.len() as int;
    assert(hls_input::quoted(t, " timescale"@) == Some("1000"@)) by {
        reveal_strlit(" timescale");
        reveal_strlit("1000");
        reveal_strlit("=\"");
        lemma_attr(t, " timescale"@, 22, "1000"@);
    }
    assert(hls_input::quoted(t, " initialization"@) == Some(init)) by {
        reveal_strlit(" initialization");
        reveal_strlit("=\"");
        lemma_attr(t, " initialization"@, 39, init);
    }
    assert(hls_input::quoted(t, " media"@) == Some(media)) by {
        reveal_strlit(" media");
        reveal_strlit("=\"");
        lemma_attr(t, " media"@, a + 1, media);
    }
    assert(hls_input::quoted(t, " startNumber"@) == Some("0"@)) by {
        reveal_strlit(" startNumber");
        reveal_strlit("0");
        reveal_strlit("=\"");
        lemma_attr(t, " startNumber"@, b + 1, "0"@);
    }
}

/// A segment template says where the initialization segment is, how the references of segments
/// are made of their numbers, and that these count from zero in milliseconds.
pub proof fn templates_tell_the_references(s: ManifestState)
    requires
        !dash::init_uri(s).contains('"'),
        !dash::init_uri(s).contains('='),
        !s.base_url@.contains('"'),
        !s.base_url@.contains('='),
    ensures
        ({
            let t = dash::segment_template(s);
            &&& hls_input::quoted(t, " timescale"@) == Some("1000"@)
            &&& hls_input::quoted(t, " initialization"@) == Some(
                match s.init_segment {
                    Some(i) => i.uri@,
                    None => "init.mp4"@,
                },
            )
            &&& hls_input::quoted(t, " media"@) == Some(
                s.base_url@ + "segment_$Number$"@ + s.container_format.video_extension(),
            )
            &&& hls_input::quoted(t, " startNumber"@) == Some("0"@)
        }),
{
    let init = dash::init_uri(s);
    let media = s.base_url@ + "segment_$Number$"@ + s.container_format.video_extension();
    lemma_media_plain(s);
    let tail = dash::latency_attrs(s.ll_dash_info) + ">\n        <SegmentTimeline>\n"@
        + dash::timeline(s.segments@, s.segments@.len())
        + "        </SegmentTimeline>\n      </SegmentTemplate>\n"@;
    lemma_template_attrs(init, media, tail);
    assert(template_text(init, media, tail) =~= dash::segment_template(s)) by {
        reveal(template_text);
    }
}

proof fn lemma_media_plain(s: ManifestState)
    requires
        !s.base_url@.contains('"'),
        !s.base_url@.contains('='),
    ensures
        !(s.base_url@ + "segment_$Number$"@ + s.container_format.video_extension()).contains('"'),
        !(s.base_url@ + "segment_$Number$"@ + s.container_format.video_extension()).contains('='),
{
    reveal_strlit("segment_$Number$");
    reveal_strlit(".cmfv");
    reveal_strlit(".m4s");
    reveal_strlit(".mp4");
    reveal_strlit(".ts");
    let b = s.base_url@;
    let e = s.container_format.video_extension();
    let media = b + "segment_$Number$"@ + e;
    assert forall|k: int| 0 <= k < media.len() implies #[trigger] media[k] != '"' && media[k] != '=' by {
        if k < b.len() {
            assert(media[k] == b[k]);
            assert(b.contains(b[k]));
        } else if k >= b.len() + 16 {
            assert(media[k] == e[k - b.len() - 16]);
        }
    }
}

/// The first protection element names the scheme and the key.
#[verifier::rlimit(60)]
pub proof fn protection_names_scheme_and_key(d: ManifestDrmInfo) -> (r: (Seq<char>, Seq<char>))
    requires
        d.default_kid@.len() == 32,
        !d.default_kid@.contains('"'),
        d.encryption_scheme.encrypts(),
    ensures
        dash::protection_of(d) == r.0 + r.1,
        hls_input::quoted(r.0, " schemeIdUri"@) == Some("urn:mpeg:dash:mp4protection:2011"@),
        hls_input::quoted(r.0, " value"@) == Some(
            if d.encryption_scheme is Cenc {
                "cenc"@
            } else {
                "cbcs"@
            },
        ),
        hls_input::quoted(r.0, " cenc:default_KID"@) == Some(dash::hyphenated(d.default_kid@)),
{
    reveal_strlit(
        "      <ContentProtection schemeIdUri=\"urn:mpeg:dash:mp4protection:2011\" value=\"",
    );
    reveal_strlit("\" cenc:default_KID=\"");
    reveal_strlit("\"/>\n");
    reveal_strlit("cenc");
    reveal_strlit("cbcs");
    reveal_strlit("-");
    reveal_strlit("=\"");
    reveal_strlit(" schemeIdUri");
    reveal_strlit("urn:mpeg:dash:mp4protection:2011");
    reveal_strlit(" value");
    reveal_strlit(" cenc:default_KID");
    let n = d.encryption_scheme.name();
    let k = dash::hyphenated(d.default_kid@);
    let e = "      <ContentProtection schemeIdUri=\"urn:mpeg:dash:mp4protection:2011\" value=\""@ + n
        + "\" cenc:default_KID=\""@ + k + "\"/>\n"@;
    assert(n.len() == 4);
    assert(!n.contains('"'));
    assert(!k.contains('"')) by {
        let kid = d.default_kid@;
        assert forall|i: int| 0 <= i < k.len() implies #[trigger] k[i] != '"' by {
            if i != 8 && i != 13 && i != 18 && i != 23 {
                let j = if i < 8 {
                    i
                } else if i < 13 {
                    i - 1
                } else if i < 18 {
                    i - 2
                } else if i < 23 {
                    i - 3
                } else {
                    i - 4
                };
                assert(k[i] == kid[j]);
                assert(kid.contains(kid[j]));
            }
        }
    }
    assert(e.subrange(24, 38) =~= " schemeIdUri"@ + "=\""@);
    assert(e.subrange(38, 70) =~= "urn:mpeg:dash:mp4protection:2011"@);
    lemma_attr(e, " schemeIdUri"@, 24, "urn:mpeg:dash:mp4protection:2011"@);
    assert(e.subrange(71, 79) =~= " value"@ + "=\""@);
    assert(e.subrange(79, 83) =~= n);
    lemma_attr(e, " value"@, 71, n);
    assert(e.subrange(84, 103) =~= " cenc:default_KID"@ + "=\""@);
    assert(e.subrange(103, 139) =~= k);
    lemma_attr(e, " cenc:default_KID"@, 84, k);
    let rest = dash::wrapped(
        "      <ContentProtection schemeIdUri=\"urn:uuid:edef8ba9-79d6-4ace-a3c8-27dcd51d21ed\">\n        <cenc:pssh>"@,
        d.widevine_pssh,
        "</cenc:pssh>\n      </ContentProtection>\n"@,
    ) + dash::playready_xml(d) + dash::wrapped(
        "      <ContentProtection schemeIdUri=\"urn:uuid:e2719d58-a985-b3c9-781a-b030af78d30e\">\n        <cenc:pssh>"@,
        d.clearkey_pssh,
        "</cenc:pssh>\n      </ContentProtection>\n"@,
    );
    assert(dash::protection_of(d) =~= e + rest);
    (e, rest)
}


// Trick play.

/// Whether a number is a tenth of another, rounded down.
pub open spec fn is_tenth(t: Option<Seq<char>>, n: u64) -> bool {
    t matches Some(v) && (chars::number_of(v, u64::MAX as nat) matches Some(m) && 10 * m <= n < 10
        * m + 10)
}

/// A trick play representation is named after its variant and takes a tenth of its bandwidth.
#[verifier::rlimit(60)]
pub proof fn trick_representations_take_a_tenth(v: VariantInfo)
    requires
        plain_variant(v),
    ensures
        hls_input::quoted(dash::representation(v, true), " id"@) == Some(v.id@ + "_trick"@),
        is_tenth(hls_input::quoted(dash::representation(v, true), " bandwidth"@), v.bandwidth),
{
    reveal_strlit("      <Representation id=\"");
    reveal_strlit("_trick\" bandwidth=\"");
    reveal_strlit("_trick");
    reveal_strlit("\"");
    reveal_strlit("=\"");
    reveal_strlit(" id");
    reveal_strlit(" bandwidth");
    let e = dash::representation(v, true);
    let id = v.id@;
    let n = v.bandwidth as nat / 10;
    let w = text::dec(n);
    lemma_number_plain(n);
    timeline::written_number_is_read(n, u64::MAX as nat);
    let head = "      <Representation id=\""@ + id + "_trick\" bandwidth=\""@ + w + "\""@;
    let tail = dash::codecs_attr(v.codecs@) + (if v.track_type is Video {
        dash::size_attrs(v.resolution)
    } else {
        Seq::empty()
    }) + ">\n      </Representation>\n"@;
    assert(e =~= head + tail);
    assert forall|k: int| 0 <= k < head.len() implies #[trigger] e[k] == head[k] by {}
    let a = 32 + id.len() as int;
    let b = a + 13 + w.len() as int;
    assert forall|k: int| 26 <= k < a - 6 implies #[trigger] e[k] == id[k - 26] && e[k] != '=' by {
        assert(e[k] == head[k]);
        assert(id.contains(id[k - 26]));
    }
    assert forall|k: int| 0 <= k < a + 13 && k != 24 && k != a + 11 implies #[trigger] e[k] != '=' by {
        if k < 26 {
        } else if k < a - 6 {
        }
    }
    let name = id + "_trick"@;
    assert(!name.contains('"')) by {
        assert forall|k: int| 0 <= k < name.len() implies #[trigger] name[k] != '"' by {
            if k < id.len() {
                assert(id.contains(id[k]));
            }
        }
    }
    assert(e.subrange(21, 26) =~= " id"@ + "=\""@);
    assert(e.subrange(26, a) =~= name);
    lemma_attr(e, " id"@, 21, name);
    assert(e.subrange(a + 1, a + 13) =~= " bandwidth"@ + "=\""@);
    assert(e.subrange(a + 13, b) =~= w);
    lemma_attr(e, " bandwidth"@, a + 1, w);
}

/// Whether an element is for a system.
pub open spec fn is_for(e: Seq<char>, system: Seq<char>) -> bool {
    hls_input::quoted(e, " schemeIdUri"@) == Some(system)
}

/// Whether a text stands in an element between two others.
pub open spec fn carries(e: Seq<char>, open: Seq<char>, t: Option<String>, close: Seq<char>) -> bool {
    t matches Some(x) ==> exists|at: int| #[trigger] chars::stands_at(e, open + x@ + close, at)
}

proof fn lemma_system_element(uuid: Seq<char>, rest: Seq<char>)
    requires
        !uuid.contains('"'),
    ensures
        is_for("      <ContentProtection schemeIdUri=\""@ + uuid + "\">\n"@ + rest, uuid),
{
    reveal_strlit("      <ContentProtection schemeIdUri=\"");
    reveal_strlit("\">\n");
    reveal_strlit(" schemeIdUri");
    reveal_strlit("=\"");
    let e = "      <ContentProtection schemeIdUri=\""@ + uuid + "\">\n"@ + rest;
    assert(e.subrange(24, 38) =~= " schemeIdUri"@ + "=\""@);
    assert(e.subrange(38, (38 + uuid.len()) as int) =~= uuid);
    lemma_attr(e, " schemeIdUri"@, 24, uuid);
}

proof fn lemma_carried(before: Seq<char>, t: Seq<char>, after: Seq<char>)
    ensures
        chars::stands_at(before + t + after, t, before.len() as int),
{
    let e = before + t + after;
    assert(e.subrange(before.len() as int, before.len() as int + t.len()) =~= t);
}

/// The element of a system whose only data is a PSSH box.
proof fn lemma_pssh_element(uuid: Seq<char>, head: Seq<char>, pssh: Option<String>)
    requires
        !uuid.contains('"'),
        head == "      <ContentProtection schemeIdUri=\""@ + uuid + "\">\n"@ + "        <cenc:pssh>"@,
    ensures
        ({
            let e = dash::wrapped(head, pssh, "</cenc:pssh>\n      </ContentProtection>\n"@);
            &&& pssh is Some ==> is_for(e, uuid)
            &&& carries(e, "<cenc:pssh>"@, pssh, "</cenc:pssh>"@)
            &&& pssh is None ==> e.len() == 0
        }),
{
    if let Some(x) = pssh {
        reveal_strlit("        <cenc:pssh>");
        reveal_strlit("<cenc:pssh>");
        reveal_strlit("</cenc:pssh>\n      </ContentProtection>\n");
        reveal_strlit("</cenc:pssh>");
        reveal_strlit("        ");
        reveal_strlit("\n      </ContentProtection>\n");
        let start = "      <ContentProtection schemeIdUri=\""@ + uuid + "\">\n"@;
        let rest = "        <cenc:pssh>"@ + x@ + "</cenc:pssh>\n      </ContentProtection>\n"@;
        let e = dash::wrapped(head, pssh, "</cenc:pssh>\n      </ContentProtection>\n"@);
        assert(e =~= start + rest);
        lemma_system_element(uuid, rest);
        let t = "<cenc:pssh>"@ + x@ + "</cenc:pssh>"@;
        assert(e =~= (start + "        "@) + t + "\n      </ContentProtection>\n"@);
        lemma_carried(start + "        "@, t, "\n      </ContentProtection>\n"@);
    }
}

/// The PlayReady element.
proof fn lemma_playready_element(d: ManifestDrmInfo, uuid: Seq<char>)
    requires
        uuid == "urn:uuid:9a04f079-9840-4286-ab92-e65be0885f95"@,
        !uuid.contains('"'),
        "      <ContentProtection schemeIdUri=\"urn:uuid:9a04f079-9840-4286-ab92-e65be0885f95\">\n"@
            == "      <ContentProtection schemeIdUri=\""@ + uuid + "\">\n"@,
    ensures
        ({
            let e = dash::playready_xml(d);
            &&& d.playready_pssh is Some || d.playready_pro is Some ==> is_for(e, uuid)
            &&& carries(e, "<cenc:pssh>"@, d.playready_pssh, "</cenc:pssh>"@)
            &&& carries(e, "<mspr:pro>"@, d.playready_pro, "</mspr:pro>"@)
            &&& d.playready_pssh is None && d.playready_pro is None ==> e.len() == 0
        }),
{
    reveal_strlit("        <cenc:pssh>");
    reveal_strlit("<cenc:pssh>");
    reveal_strlit("</cenc:pssh>\n");
    reveal_strlit("</cenc:pssh>");
    reveal_strlit("        <mspr:pro>");
    reveal_strlit("<mspr:pro>");
    reveal_strlit("</mspr:pro>\n");
    reveal_strlit("</mspr:pro>");
    reveal_strlit("        ");
    reveal_strlit("\n");
    let start = "      <ContentProtection schemeIdUri=\""@ + uuid + "\">\n"@;
    let a = dash::wrapped("        <cenc:pssh>"@, d.playready_pssh, "</cenc:pssh>\n"@);
    let b = dash::wrapped("        <mspr:pro>"@, d.playready_pro, "</mspr:pro>\n"@);
    let end = "      </ContentProtection>\n"@;
    let e = dash::playready_xml(d);
    if d.playready_pssh is Some || d.playready_pro is Some {
        assert(e =~= start + (a + b + end));
        lemma_system_element(uuid, a + b + end);
    }
    if let Some(x) = d.playready_pssh {
        let t = "<cenc:pssh>"@ + x@ + "</cenc:pssh>"@;
        assert(a =~= "        "@ + t + "\n"@);
        assert(e =~= (start + "        "@) + t + ("\n"@ + b + end));
        lemma_carried(start + "        "@, t, "\n"@ + b + end);
    }
    if let Some(x) = d.playready_pro {
        let t = "<mspr:pro>"@ + x@ + "</mspr:pro>"@;
        assert(b =~= "        "@ + t + "\n"@);
        assert(e =~= (start + a + "        "@) + t + ("\n"@ + end));
        lemma_carried(start + a + "        "@, t, "\n"@ + end);
    }
}

/// Each DRM system that a manifest has data for has an element of its own, which names the system
/// and carries that system's data; a system without data has none.
#[verifier::spinoff_prover]
#[verifier::rlimit(60)]
pub proof fn each_system_has_its_element(d: ManifestDrmInfo) -> (r: (
    Seq<char>,
    Seq<char>,
    Seq<char>,
    Seq<char>,
))
    ensures
        dash::protection_of(d) == r.0 + r.1 + r.2 + r.3,
        d.widevine_pssh is Some ==> is_for(r.1, "urn:uuid:edef8ba9-79d6-4ace-a3c8-27dcd51d21ed"@),
        carries(r.1, "<cenc:pssh>"@, d.widevine_pssh, "</cenc:pssh>"@),
        d.widevine_pssh is None ==> r.1.len() == 0,
        d.playready_pssh is Some || d.playready_pro is Some ==> is_for(
            r.2,
            "urn:uuid:9a04f079-9840-4286-ab92-e65be0885f95"@,
        ),
        carries(r.2, "<cenc:pssh>"@, d.playready_pssh, "</cenc:pssh>"@),
        carries(r.2, "<mspr:pro>"@, d.playready_pro, "</mspr:pro>"@),
        d.playready_pssh is None && d.playready_pro is None ==> r.2.len() == 0,
        d.clearkey_pssh is Some ==> is_for(r.3, "urn:uuid:e2719d58-a985-b3c9-781a-b030af78d30e"@),
        carries(r.3, "<cenc:pssh>"@, d.clearkey_pssh, "</cenc:pssh>"@),
        d.clearkey_pssh is None ==> r.3.len() == 0,
{
    let wide = "urn:uuid:edef8ba9-79d6-4ace-a3c8-27dcd51d21ed"@;
    let ready = "urn:uuid:9a04f079-9840-4286-ab92-e65be0885f95"@;
    let clear = "urn:uuid:e2719d58-a985-b3c9-781a-b030af78d30e"@;
    let w = "      <ContentProtection schemeIdUri=\"urn:uuid:edef8ba9-79d6-4ace-a3c8-27dcd51d21ed\">\n        <cenc:pssh>"@;
    let p = "      <ContentProtection schemeIdUri=\"urn:uuid:9a04f079-9840-4286-ab92-e65be0885f95\">\n"@;
    let c = "      <ContentProtection schemeIdUri=\"urn:uuid:e2719d58-a985-b3c9-781a-b030af78d30e\">\n        <cenc:pssh>"@;
    let open = "      <ContentProtection schemeIdUri=\""@;
    assert(w =~= open + wide + "\">\n"@ + "        <cenc:pssh>"@ && !wide.contains('"')) by {
        reveal_strlit("urn:uuid:edef8ba9-79d6-4ace-a3c8-27dcd51d21ed");
        reveal_strlit(
            "      <ContentProtection schemeIdUri=\"urn:uuid:edef8ba9-79d6-4ace-a3c8-27dcd51d21ed\">\n        <cenc:pssh>",
        );
        reveal_strlit("      <ContentProtection schemeIdUri=\"");
        reveal_strlit("\">\n");
        reveal_strlit("        <cenc:pssh>");
    }
    assert(p =~= open + ready + "\">\n"@ && !ready.contains('"')) by {
        reveal_strlit("urn:uuid:9a04f079-9840-4286-ab92-e65be0885f95");
        reveal_strlit(
            "      <ContentProtection schemeIdUri=\"urn:uuid:9a04f079-9840-4286-ab92-e65be0885f95\">\n",
        );
        reveal_strlit("      <ContentProtection schemeIdUri=\"");
        reveal_strlit("\">\n");
    }
    assert(c =~= open + clear + "\">\n"@ + "        <cenc:pssh>"@ && !clear.contains('"')) by {
        reveal_strlit("urn:uuid:e2719d58-a985-b3c9-781a-b030af78d30e");
        reveal_strlit(
            "      <ContentProtection schemeIdUri=\"urn:uuid:e2719d58-a985-b3c9-781a-b030af78d30e\">\n        <cenc:pssh>",
        );
        reveal_strlit("      <ContentProtection schemeIdUri=\"");
        reveal_strlit("\">\n");
        reveal_strlit("        <cenc:pssh>");
    }
    lemma_pssh_element(wide, w, d.widevine_pssh);
    lemma_playready_element(d, ready);
    lemma_pssh_element(clear, c, d.clearkey_pssh);
    let first = "      <ContentProtection schemeIdUri=\"urn:mpeg:dash:mp4protection:2011\" value=\""@
        + d.encryption_scheme.name() + "\" cenc:default_KID=\""@ + dash::hyphenated(d.default_kid@)
        + "\"/>\n"@;
    (
        first,
        dash::wrapped(w, d.widevine_pssh, "</cenc:pssh>\n      </ContentProtection>\n"@),
        dash::playready_xml(d),
        dash::wrapped(c, d.clearkey_pssh, "</cenc:pssh>\n      </ContentProtection>\n"@),
    )
}

} // verus!
