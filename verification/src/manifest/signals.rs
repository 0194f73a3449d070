//! What the elements of an MPD say beside its timeline: ad breaks, single files, protection and
//! steering.

use crate::chars;
use crate::decimal;
use crate::decimal::Decimal;
use crate::drm::scheme::EncryptionScheme;
use crate::manifest::dash_input;
use crate::manifest::dash_input::{AttrSeq, MpdView, PendingView};
use crate::manifest::elements;
use crate::manifest::timeline;
use crate::manifest::types::AdBreakView;
use crate::manifest::variants;
use crate::media::cmaf;
use crate::text;
use crate::url::UrlView;
use crate::xml::EventView;
use vstd::prelude::*;

verus! {

/// The start of an element.
pub open spec fn start(name: Seq<char>, attrs: AttrSeq, empty: bool) -> EventView {
    EventView::Tag(cmaf::utf8(name), attrs, empty)
}

/// The end of an element.
pub open spec fn end(name: Seq<char>) -> EventView {
    EventView::Close(cmaf::utf8(name))
}

/// Two names that differ in length or in their first letter.
proof fn lemma_apart(a: Seq<char>, b: Seq<char>)
    requires
        a.len() > 0,
        b.len() > 0,
        a.len() != b.len() || a[0] != b[0],
    ensures
        cmaf::utf8(a) != cmaf::utf8(b),
{
    if a == b {
        assert(a[0] == b[0]);
    }
    timeline::lemma_utf8_one_way(a, b);
}

/// What the names of elements start with, and how long they are.
proof fn lemma_lengths()
    ensures
        "MPD"@.len() == 3,
        "AdaptationSet"@.len() == 13,
        "Representation"@.len() == 14 && "Representation"@[0] == 'R',
        "BaseURL"@.len() == 7,
        "SegmentBase"@.len() == 11 && "SegmentBase"@[0] == 'S',
        "Initialization"@.len() == 14 && "Initialization"@[0] == 'I',
        "SegmentTemplate"@.len() == 15 && "SegmentTemplate"@[0] == 'S',
        "S"@.len() == 1,
        "ContentSteering"@.len() == 15 && "ContentSteering"@[0] == 'C',
        "ContentProtection"@.len() == 17,
        "EventStream"@.len() == 11 && "EventStream"@[0] == 'E',
        "Event"@.len() == 5,
{
    reveal_strlit("MPD");
    reveal_strlit("AdaptationSet");
    reveal_strlit("Representation");
    reveal_strlit("BaseURL");
    reveal_strlit("SegmentBase");
    reveal_strlit("Initialization");
    reveal_strlit("SegmentTemplate");
    reveal_strlit("S");
    reveal_strlit("ContentSteering");
    reveal_strlit("ContentProtection");
    reveal_strlit("EventStream");
    reveal_strlit("Event");
}

/// The elements that an element of a later name is not.
proof fn lemma_not_first_seven(x: Seq<char>)
    requires
        x == "ContentSteering"@ || x == "ContentProtection"@ || x == "EventStream"@ || x
            == "Event"@,
    ensures
        cmaf::utf8(x) != cmaf::utf8("MPD"@),
        cmaf::utf8(x) != cmaf::utf8("AdaptationSet"@),
        cmaf::utf8(x) != cmaf::utf8("Representation"@),
        cmaf::utf8(x) != cmaf::utf8("BaseURL"@),
        cmaf::utf8(x) != cmaf::utf8("SegmentBase"@),
        cmaf::utf8(x) != cmaf::utf8("Initialization"@),
        cmaf::utf8(x) != cmaf::utf8("SegmentTemplate"@),
        cmaf::utf8(x) != cmaf::utf8("S"@),
{
    lemma_lengths();
    lemma_apart(x, "MPD"@);
    lemma_apart(x, "AdaptationSet"@);
    lemma_apart(x, "Representation"@);
    lemma_apart(x, "BaseURL"@);
    lemma_apart(x, "SegmentBase"@);
    lemma_apart(x, "Initialization"@);
    lemma_apart(x, "SegmentTemplate"@);
    lemma_apart(x, "S"@);
}

proof fn lemma_not_first_three(x: Seq<char>)
    requires
        x == "BaseURL"@ || x == "SegmentBase"@ || x == "Initialization"@,
    ensures
        cmaf::utf8(x) != cmaf::utf8("MPD"@),
        cmaf::utf8(x) != cmaf::utf8("AdaptationSet"@),
        cmaf::utf8(x) != cmaf::utf8("Representation"@),
        x != "BaseURL"@ ==> cmaf::utf8(x) != cmaf::utf8("BaseURL"@),
        x == "Initialization"@ ==> cmaf::utf8(x) != cmaf::utf8("SegmentBase"@),
{
    lemma_lengths();
    lemma_apart(x, "MPD"@);
    lemma_apart(x, "AdaptationSet"@);
    lemma_apart(x, "Representation"@);
    if x != "BaseURL"@ {
        lemma_apart(x, "BaseURL"@);
    }
    if x == "Initialization"@ {
        lemma_apart(x, "SegmentBase"@);
    }
}

// Ad breaks.

/// Whether a time is a count of ticks in seconds, rounded down to billionths.
pub open spec fn is_ticks(time: Decimal, ticks: u64, scale: u64) -> bool {
    time.nanos * scale <= ticks * 1_000_000_000 < (time.nanos + 1) * scale
}

proof fn lemma_ticks(ticks: u64, scale: u64)
    requires
        scale > 0,
    ensures
        is_ticks(decimal::of_ticks(ticks as nat, scale as nat), ticks, scale),
{
    let x = ticks * 1_000_000_000;
    let q = x / scale as int;
    vstd::arithmetic::div_mod::lemma_fundamental_div_mod(x, scale as int);
    let r = x % scale as int;
    assert(q * scale <= x && x < (q + 1) * scale) by (nonlinear_arith)
        requires
            x == scale * q + r,
            0 <= r < scale,
    ;
    assert(0 <= q <= x) by (nonlinear_arith)
        requires
            q * scale <= x,
            x >= 0,
            scale > 0,
            x < (q + 1) * scale,
    ;
}

/// The attributes of an event.
pub open spec fn event_attrs(attrs: AttrSeq, id: u32, time: u64, duration: Option<u64>) -> bool {
    &&& timeline::given(attrs, "id"@, text::dec(id as nat))
    &&& timeline::given(attrs, "presentationTime"@, text::dec(time as nat))
    &&& match duration {
        Some(d) => timeline::given(attrs, "duration"@, text::dec(d as nat)),
        None => timeline::absent(attrs, "duration"@),
    }
}

/// Whether an ad break is what an event announces.
pub open spec fn is_break(
    b: AdBreakView,
    id: u32,
    time: u64,
    duration: Option<u64>,
    scale: u64,
    command: Seq<char>,
) -> bool {
    &&& b.id == id
    &&& is_ticks(b.presentation_time, time, scale)
    &&& match duration {
        Some(d) => b.duration is Some && is_ticks(b.duration->0, d, scale),
        None => b.duration is None,
    }
    &&& b.scte35_cmd == (if command.len() > 0 {
        Some(command)
    } else {
        None
    })
}

proof fn lemma_event_start(
    m: MpdView,
    attrs: AttrSeq,
    id: u32,
    time: u64,
    duration: Option<u64>,
)
    requires
        m.in_events,
        event_attrs(attrs, id, time, duration),
    ensures
        m.step(start("Event"@, attrs, true)) == (MpdView {
            breaks: m.breaks.push(
                m.break_of(PendingView { id, time, duration, text: Seq::empty() }),
            ),
            ..m
        }),
        m.step(start("Event"@, attrs, false)) == (MpdView {
            pending: Some(PendingView { id, time, duration, text: Seq::empty() }),
            ..m
        }),
{
    lemma_lengths();
    lemma_not_first_seven("Event"@);
    lemma_apart("Event"@, "ContentSteering"@);
    lemma_apart("Event"@, "ContentProtection"@);
    lemma_apart("Event"@, "EventStream"@);
    timeline::lemma_given(attrs, "id"@, text::dec(id as nat));
    timeline::lemma_given(attrs, "presentationTime"@, text::dec(time as nat));
    timeline::written_number_is_read(id as nat, u32::MAX as nat);
    timeline::written_number_is_read(time as nat, u64::MAX as nat);
    match duration {
        Some(d) => {
            timeline::lemma_given(attrs, "duration"@, text::dec(d as nat));
            timeline::written_number_is_read(d as nat, u64::MAX as nat);
        },
        None => {
            timeline::lemma_absent(attrs, "duration"@, attrs.len());
        },
    }
}

proof fn lemma_stream_start(m: MpdView, attrs: AttrSeq, scale: u64)
    requires
        timeline::given(attrs, "schemeIdUri"@, "urn:scte:scte35:2013:bin"@),
        timeline::given(attrs, "timescale"@, text::dec(scale as nat)),
    ensures
        m.step(start("EventStream"@, attrs, false)) == (MpdView {
            in_events: true,
            event_scale: scale,
            ..m
        }),
{
    lemma_lengths();
    lemma_not_first_seven("EventStream"@);
    lemma_apart("EventStream"@, "ContentSteering"@);
    lemma_apart("EventStream"@, "ContentProtection"@);
    timeline::lemma_given(attrs, "schemeIdUri"@, "urn:scte:scte35:2013:bin"@);
    timeline::lemma_given(attrs, "timescale"@, text::dec(scale as nat));
    timeline::written_number_is_read(scale as nat, u64::MAX as nat);
    reveal_strlit("urn:scte:scte35:2013:bin");
    reveal_strlit("urn:scte:scte35:");
    assert("urn:scte:scte35:2013:bin"@.subrange(0, 16) =~= "urn:scte:scte35:"@);
}

/// An event of a splice stream, with its command as text or without one, is read as one more ad
/// break: with the event's identifier, command and times, counted in the stream's own timescale.
#[verifier::rlimit(40)]
pub proof fn events_announce_breaks(
    m: MpdView,
    stream: AttrSeq,
    scale: u64,
    attrs: AttrSeq,
    id: u32,
    time: u64,
    duration: Option<u64>,
    command: Option<Seq<char>>,
)
    requires
        !m.base_ahead,
        scale > 0,
        timeline::given(stream, "schemeIdUri"@, "urn:scte:scte35:2013:bin"@),
        timeline::given(stream, "timescale"@, text::dec(scale as nat)),
        event_attrs(attrs, id, time, duration),
    ensures
        ({
            let opened = m.step(start("EventStream"@, stream, false));
            let told = match command {
                Some(t) => opened.step(start("Event"@, attrs, false)).step(
                    EventView::Words(Some(t)),
                ).step(end("Event"@)),
                None => opened.step(start("Event"@, attrs, true)),
            };
            let closed = told.step(end("EventStream"@));
            let words = match command {
                Some(t) => chars::trimmed(t),
                None => Seq::empty(),
            };
            &&& closed.breaks.len() == m.breaks.len() + 1
            &&& closed.breaks.drop_last() == m.breaks
            &&& is_break(closed.breaks.last(), id, time, duration, scale, words)
            &&& !closed.in_events
        }),
{
    let opened = m.step(start("EventStream"@, stream, false));
    lemma_stream_start(m, stream, scale);
    lemma_event_start(opened, attrs, id, time, duration);
    lemma_ticks(time, scale);
    if let Some(d) = duration {
        lemma_ticks(d, scale);
    }
    lemma_lengths();
    lemma_apart("Event"@, "AdaptationSet"@);
    lemma_apart("Event"@, "Representation"@);
    lemma_apart("Event"@, "SegmentBase"@);
    lemma_apart("Event"@, "BaseURL"@);
    lemma_apart("Event"@, "EventStream"@);
    lemma_apart("EventStream"@, "AdaptationSet"@);
    lemma_apart("EventStream"@, "Representation"@);
    lemma_apart("EventStream"@, "SegmentBase"@);
    lemma_apart("EventStream"@, "BaseURL"@);
    match command {
        Some(t) => {
            let begun = opened.step(start("Event"@, attrs, false));
            let words = chars::trimmed(t);
            let said = begun.step(EventView::Words(Some(t)));
            assert(Seq::<char>::empty() + words =~= words);
            assert(said.pending == Some(PendingView { id, time, duration, text: words }));
            let told = said.step(end("Event"@));
            assert(told.breaks.drop_last() =~= m.breaks);
        },
        None => {
            let told = opened.step(start("Event"@, attrs, true));
            assert(told.breaks.drop_last() =~= m.breaks);
        },
    }
}

// Single files.

/// A byte range as it is written.
pub open spec fn range_text(range: (u64, u64)) -> Seq<char> {
    text::dec(range.0 as nat) + "-"@ + text::dec(range.1 as nat)
}

/// A byte range that was written is read.
pub proof fn written_ranges_are_read(range: (u64, u64))
    ensures
        dash_input::byte_range(range_text(range)) == Some(range),
{
    reveal_strlit("-");
    let a = text::dec(range.0 as nat);
    let b = text::dec(range.1 as nat);
    let t = range_text(range);
    elements::lemma_number_plain(range.0 as nat);
    elements::lemma_number_plain(range.1 as nat);
    timeline::written_number_is_read(range.0 as nat, u64::MAX as nat);
    timeline::written_number_is_read(range.1 as nat, u64::MAX as nat);
    assert forall|k: int| 0 <= k < t.len() && k != a.len() implies #[trigger] t[k] != '-' by {
        if k < a.len() {
            assert(chars::is_digit(a[k]));
        } else {
            assert(t[k] == b[k - a.len() - 1]);
            assert(chars::is_digit(b[k - a.len() - 1]));
        }
    }
    assert(t =~= a.push('-') + b);
    variants::lemma_two_pieces(a, b, t, '-');
}

/// A representation that is one file, with an index and an initialization range, is kept with
/// exactly these where none was kept before: the first range of the file that a player needs
/// is not mistaken for the other.
#[verifier::spinoff_prover]
#[verifier::rlimit(80)]
pub proof fn single_files_are_described(
    m: MpdView,
    rep: AttrSeq,
    url: Seq<char>,
    base: AttrSeq,
    index: (u64, u64),
    scale: u64,
    first: AttrSeq,
    init: (u64, u64),
)
    requires
        m.in_set,
        m.found is None,
        m.pending is None,
        chars::trimmed(url).len() > 0,
        timeline::given(base, "indexRange"@, range_text(index)),
        timeline::given(base, "timescale"@, text::dec(scale as nat)),
        timeline::given(first, "range"@, range_text(init)),
    ensures
        ({
            let named = m.step(start("Representation"@, rep, false)).step(
                start("BaseURL"@, Seq::empty(), false),
            ).step(EventView::Words(Some(url))).step(end("BaseURL"@));
            let told = named.step(start("SegmentBase"@, base, false)).step(
                start("Initialization"@, first, true),
            ).step(end("SegmentBase"@)).step(end("Representation"@));
            &&& told.found matches Some(f) && {
                &&& f.base == chars::trimmed(url)
                &&& f.index_range == index
                &&& f.init_range == init
                &&& f.timescale == scale
                &&& f.is_video == (m.set_is_video || dash_input::mime_video(rep, rep.len()))
            }
        }),
{
    lemma_lengths();
    lemma_apart("Representation"@, "MPD"@);
    lemma_apart("Representation"@, "AdaptationSet"@);
    lemma_not_first_three("BaseURL"@);
    lemma_not_first_three("SegmentBase"@);
    lemma_not_first_three("Initialization"@);
    written_ranges_are_read(index);
    written_ranges_are_read(init);
    timeline::lemma_given(base, "indexRange"@, range_text(index));
    timeline::lemma_given(base, "timescale"@, text::dec(scale as nat));
    timeline::lemma_given(first, "range"@, range_text(init));
    timeline::written_number_is_read(scale as nat, u64::MAX as nat);
    let a = m.step(start("Representation"@, rep, false));
    assert(a == m.on_representation(rep));
    let b = a.step(start("BaseURL"@, Seq::empty(), false));
    assert(b == (MpdView { base_ahead: true, ..a }));
    let c = b.step(EventView::Words(Some(url)));
    assert(c == (MpdView { rep_base: Some(chars::trimmed(url)), base_ahead: false, ..b }));
    let d = c.step(end("BaseURL"@));
    lemma_apart("BaseURL"@, "SegmentBase"@);
    assert(d == c);
    let e = d.step(start("SegmentBase"@, base, false));
    assert(e == d.on_segment_base(base, false));
    let f = e.step(start("Initialization"@, first, true));
    assert(f == e.on_initialization(first));
    let g = f.step(end("SegmentBase"@));
    assert(g == (MpdView { in_segment_base: false, ..f }));
    let h = g.step(end("Representation"@));
    assert(h == g.on_representation_end());
}

// Protection and steering.

/// A protection element of the common kind tells the scheme that it names; one that names no
/// known scheme tells nothing.
pub proof fn protection_tells_the_scheme(m: MpdView, attrs: AttrSeq, value: Seq<char>, empty: bool)
    requires
        timeline::given(attrs, "schemeIdUri"@, "urn:mpeg:dash:mp4protection:2011"@),
        timeline::given(attrs, "value"@, value),
    ensures
        ({
            let r = m.step(start("ContentProtection"@, attrs, empty));
            &&& value == "cenc"@ ==> r.scheme == Some(EncryptionScheme::Cenc)
            &&& value == "cbcs"@ ==> r.scheme == Some(EncryptionScheme::Cbcs)
            &&& value != "cenc"@ && value != "cbcs"@ ==> r.scheme == m.scheme
            &&& r == (MpdView { scheme: r.scheme, ..m })
        }),
{
    lemma_lengths();
    lemma_not_first_seven("ContentProtection"@);
    lemma_apart("ContentProtection"@, "ContentSteering"@);
    timeline::lemma_given(attrs, "schemeIdUri"@, "urn:mpeg:dash:mp4protection:2011"@);
    timeline::lemma_given(attrs, "value"@, value);
    reveal_strlit("cenc");
    reveal_strlit("cbcs");
    assert("cenc"@[1] != "cbcs"@[1]);
}

/// A steering element tells its server and its default location.
pub proof fn steering_tells_the_server(
    m: MpdView,
    attrs: AttrSeq,
    server: Seq<char>,
    location: Seq<char>,
    before: bool,
    empty: bool,
)
    requires
        timeline::given(attrs, "proxyServerURL"@, server),
        timeline::given(attrs, "defaultServiceLocation"@, location),
        timeline::given(
            attrs,
            "queryBeforeStart"@,
            if before {
                "true"@
            } else {
                "false"@
            },
        ),
    ensures
        ({
            let r = m.step(start("ContentSteering"@, attrs, empty));
            &&& r.steering matches Some(c) && {
                &&& c.server_uri == server
                &&& c.default_pathway_id == Some(location)
                &&& c.query_before_start == Some(before)
            }
            &&& r == (MpdView { steering: r.steering, ..m })
        }),
{
    lemma_not_first_seven("ContentSteering"@);
    timeline::lemma_given(attrs, "proxyServerURL"@, server);
    timeline::lemma_given(attrs, "defaultServiceLocation"@, location);
    timeline::lemma_given(
        attrs,
        "queryBeforeStart"@,
        if before {
            "true"@
        } else {
            "false"@
        },
    );
    reveal_strlit("true");
    reveal_strlit("false");
    assert("true"@.len() == 4 && "false"@.len() == 5);
}

/// What was read of an MPD reaches the manifest: whether it is live, its scheme, ad breaks,
/// latency and steering, and for a single file the file with its two ranges.
pub proof fn sources_carry_what_was_read(m: MpdView, base: UrlView)
    ensures
        m.manifest(base) matches Ok(v) ==> {
            &&& v.is_live == m.live
            &&& v.source_scheme == m.scheme
            &&& v.ad_breaks == m.breaks
            &&& v.ll_dash_info == m.latency
            &&& v.content_steering == m.steering
            &&& v.segment_base is Some <==> m.media_template is None
            &&& m.media_template is None ==> {
                let f = v.segment_base->0;
                &&& m.found is Some
                &&& f.file_url == v.init_segment_url
                &&& f.init_range == m.found->0.init_range
                &&& v.init_byte_range == Some(m.found->0.init_range)
                &&& f.index_range == m.found->0.index_range
                &&& f.timescale == m.found->0.timescale
                &&& v.segment_urls.len() == 0
            }
        },
{
}

// Durations.

proof fn lemma_unit(s: Seq<char>, i: int, n: int, digits: Seq<char>, total: Decimal)
    requires
        0 <= i <= n < s.len(),
        s[n] == 'H' || s[n] == 'M' || s[n] == 'S',
        forall|k: int| i <= k < n ==> #[trigger] s[k] != 'H' && s[k] != 'M' && s[k] != 'S',
    ensures
        dash_input::duration_from(s, i, digits, total) == dash_input::duration_from(
            s,
            n + 1,
            Seq::empty(),
            total.sum(
                dash_input::scaled(
                    digits + s.subrange(i, n),
                    if s[n] == 'H' {
                        3600
                    } else if s[n] == 'M' {
                        60
                    } else {
                        1
                    },
                ),
            ),
        ),
    decreases n - i,
{
    if i < n {
        lemma_unit(s, i + 1, n, digits.push(s[i]), total);
        assert(digits.push(s[i]) + s.subrange(i + 1, n) =~= digits + s.subrange(i, n));
    } else {
        assert(digits + s.subrange(i, n) =~= digits);
    }
}

/// Whether a text is a number without a unit in it.
pub open spec fn counts_units(t: Seq<char>, d: Decimal) -> bool {
    &&& decimal::decimal_of(t) == Some(d)
    &&& 0 <= d.nanos < 1_000_000_000_000_000_000_000_000
    &&& forall|k: int| 0 <= k < t.len() ==> #[trigger] t[k] != 'H' && t[k] != 'M' && t[k] != 'S'
}

/// A duration in hours, minutes and seconds lasts as long as these together.
#[verifier::rlimit(40)]
pub proof fn written_durations_add_up(
    h: Seq<char>,
    hours: Decimal,
    m: Seq<char>,
    minutes: Decimal,
    s: Seq<char>,
    seconds: Decimal,
)
    requires
        counts_units(h, hours),
        counts_units(m, minutes),
        counts_units(s, seconds),
    ensures
        ({
            let total = 3600 * hours.nanos + 60 * minutes.nanos + seconds.nanos;
            let text = "PT"@ + h + seq!['H'] + m + seq!['M'] + s + seq!['S'];
            dash_input::duration_of(text) == (if total > 0 {
                Some(Decimal { nanos: total as i128 })
            } else {
                None
            })
        }),
{
    reveal_strlit("PT");
    let text = "PT"@ + h + seq!['H'] + m + seq!['M'] + s + seq!['S'];
    assert(text.subrange(0, 2) =~= "PT"@);
    let t = text.subrange(2, text.len() as int);
    let a = h.len() as int;
    let b = a + 1 + m.len() as int;
    let c = b + 1 + s.len() as int;
    assert(t =~= h + seq!['H'] + m + seq!['M'] + s + seq!['S']);
    assert(t[a] == 'H' && t[b] == 'M' && t[c] == 'S');
    assert(t.subrange(0, a) =~= h);
    assert(t.subrange(a + 1, b) =~= m);
    assert(t.subrange(b + 1, c) =~= s);
    assert forall|k: int| 0 <= k < a implies #[trigger] t[k] == h[k] by {}
    assert forall|k: int| a < k < b implies #[trigger] t[k] == m[k - a - 1] by {}
    assert forall|k: int| b < k < c implies #[trigger] t[k] == s[k - b - 1] by {}
    let none = Seq::<char>::empty();
    let zero = Decimal { nanos: 0 };
    lemma_unit(t, 0, a, none, zero);
    assert(none + h =~= h);
    let x = zero.sum(hours.taken(3600));
    lemma_unit(t, a + 1, b, none, x);
    assert(none + m =~= m);
    let y = x.sum(minutes.taken(60));
    lemma_unit(t, b + 1, c, none, y);
    assert(none + s =~= s);
}

} // verus!
