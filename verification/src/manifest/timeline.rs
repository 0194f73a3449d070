//! Which segments a source MPD describes.

use crate::chars;
use crate::decimal;
use crate::decimal::Decimal;
use crate::error::ErrorView;
use crate::manifest::dash_input;
use crate::manifest::dash_input::{AttrSeq, MpdView, SegmentList};
use crate::manifest::hls_input;
use crate::manifest::types::SourceView;
use crate::media::cmaf;
use crate::text;
use crate::url::UrlView;
use crate::xml::EventView;
use vstd::prelude::*;

verus! {

// Numbers in templates.

/// Whether a template has the place of the number once, between `a` and `b`.
pub open spec fn one_number(pattern: Seq<char>, a: Seq<char>, b: Seq<char>) -> bool {
    &&& pattern == a + "$Number$"@ + b
    &&& forall|i: int| #[trigger]
        chars::stands_at(pattern, "$Number$"@, i) ==> i == a.len()
}

proof fn lemma_replace_rest(s: Seq<char>, p: Seq<char>, with: Seq<char>, i: int, got: Seq<char>)
    requires
        p.len() > 0,
        0 <= i <= s.len(),
        forall|k: int| i <= k ==> !(#[trigger] chars::stands_at(s, p, k)),
    ensures
        chars::replaced_from(s, p, with, i, got) == got + s.skip(i),
    decreases s.len() - i,
{
    if i < s.len() {
        assert(!chars::stands_at(s, p, i));
        lemma_replace_rest(s, p, with, i + 1, got.push(s[i]));
        assert(got.push(s[i]) + s.skip(i + 1) =~= got + s.skip(i));
    } else {
        assert(got + s.skip(i) =~= got);
    }
}

proof fn lemma_replace_front(
    s: Seq<char>,
    p: Seq<char>,
    with: Seq<char>,
    n: int,
    i: int,
    got: Seq<char>,
)
    requires
        p.len() > 0,
        0 <= i <= n < s.len(),
        chars::stands_at(s, p, n),
        forall|k: int| #[trigger] chars::stands_at(s, p, k) ==> k == n,
    ensures
        chars::replaced_from(s, p, with, i, got) == got + s.subrange(i, n) + with + s.skip(
            n + p.len(),
        ),
    decreases n - i,
{
    if i < n {
        assert(!chars::stands_at(s, p, i));
        lemma_replace_front(s, p, with, n, i + 1, got.push(s[i]));
        assert(got.push(s[i]) + s.subrange(i + 1, n) =~= got + s.subrange(i, n));
    } else {
        lemma_replace_rest(s, p, with, n + p.len(), got + with);
        assert(got + s.subrange(i, n) =~= got);
    }
}

/// The number of a segment takes the place that the template has for it; what is around that
/// place stays.
pub proof fn number_takes_its_place(pattern: Seq<char>, a: Seq<char>, b: Seq<char>, n: nat)
    requires
        one_number(pattern, a, b),
    ensures
        chars::replaced(pattern, "$Number$"@, text::dec(n)) == a + text::dec(n) + b,
{
    let p = "$Number$"@;
    reveal_strlit("$Number$");
    let at = a.len() as int;
    assert(pattern.subrange(at, at + p.len()) =~= p);
    assert(chars::stands_at(pattern, p, at));
    lemma_replace_front(pattern, p, text::dec(n), at, 0, Seq::empty());
    assert(pattern.subrange(0, at) =~= a);
    assert(pattern.skip(at + p.len()) =~= b);
    assert(Seq::<char>::empty() + a =~= a);
}

// Segments of a timeline.

/// How many segments the first `j` entries of a timeline stand for: each one, and its repeats.
pub open spec fn count_before(timeline: Seq<(u64, u32)>, j: nat) -> nat
    decreases j,
{
    if j == 0 {
        0
    } else {
        count_before(timeline, (j - 1) as nat) + timeline[j - 1].1 as nat + 1
    }
}

/// Whether segment `i` of a list has the URL that the template gives for the number `n`, and
/// lasts `d` ticks.
pub open spec fn segment_is(
    base: UrlView,
    a: Seq<char>,
    b: Seq<char>,
    list: SegmentList,
    i: int,
    n: nat,
    d: nat,
    scale: nat,
) -> bool {
    &&& 0 <= i < list.0.len()
    &&& i < list.1.len()
    &&& Ok::<Seq<char>, ErrorView>(list.0[i]) == hls_input::resolved(base, a + text::dec(n) + b)
    &&& scale > 0 ==> list.1[i].nanos == (d * 1_000_000_000) / scale
}

/// Whether a list has the segments of a timeline from repeat `k` of entry `j` on: one for every
/// entry and every repeat, numbered on from the first number without a gap.
pub open spec fn timeline_is(
    base: UrlView,
    a: Seq<char>,
    b: Seq<char>,
    timeline: Seq<(u64, u32)>,
    scale: nat,
    start: nat,
    list: SegmentList,
    j: int,
    k: int,
) -> bool {
    &&& list.0.len() == count_before(timeline, timeline.len())
    &&& list.1.len() == list.0.len()
    &&& forall|e: int, r: int|
        (e > j || (e == j && r >= k)) && 0 <= e < timeline.len() && 0 <= r <= timeline[e].1
            ==> #[trigger] entry_is(base, a, b, timeline, scale, start, list, e, r)
}

/// Whether a list has the segment of repeat `r` of entry `e` of a timeline in its place.
pub open spec fn entry_is(
    base: UrlView,
    a: Seq<char>,
    b: Seq<char>,
    timeline: Seq<(u64, u32)>,
    scale: nat,
    start: nat,
    list: SegmentList,
    e: int,
    r: int,
) -> bool {
    let i = count_before(timeline, e as nat) + r;
    segment_is(base, a, b, list, i, (start + i) as nat, timeline[e].0 as nat, scale)
}

proof fn lemma_of_ticks(d: nat, scale: nat)
    requires
        d <= u64::MAX,
        scale > 0,
    ensures
        decimal::of_ticks(d, scale).nanos == (d * 1_000_000_000) / scale,
{
    assert((d * 1_000_000_000) / scale <= d * 1_000_000_000) by (nonlinear_arith)
        requires
            scale > 0,
    ;
}

proof fn lemma_count_grows(timeline: Seq<(u64, u32)>, i: nat, j: nat)
    requires
        i <= j,
    ensures
        count_before(timeline, i) + (j - i) <= count_before(timeline, j),
    decreases j,
{
    if i < j {
        lemma_count_grows(timeline, i, (j - 1) as nat);
    }
}

#[verifier::rlimit(60)]
proof fn lemma_timeline(
    base: UrlView,
    pattern: Seq<char>,
    a: Seq<char>,
    b: Seq<char>,
    timeline: Seq<(u64, u32)>,
    scale: nat,
    start: u32,
    j: int,
    k: int,
    number: u32,
    got: SegmentList,
    all: SegmentList,
)
    requires
        one_number(pattern, a, b),
        0 <= j <= timeline.len(),
        0 <= k,
        j == timeline.len() ==> k == 0,
        j < timeline.len() ==> k <= timeline[j].1 + 1,
        start + count_before(timeline, timeline.len()) <= u32::MAX,
        got.0.len() == count_before(timeline, j as nat) + k,
        got.1.len() == got.0.len(),
        number == start + got.0.len(),
        dash_input::timeline_segments(base, pattern, timeline, scale, j, k, number, got) == Ok::<
            SegmentList,
            ErrorView,
        >(all),
    ensures
        got.0.is_prefix_of(all.0),
        got.1.is_prefix_of(all.1),
        timeline_is(base, a, b, timeline, scale, start as nat, all, j, k),
    decreases
            timeline.len() - j,
            (if 0 <= j < timeline.len() && k <= timeline[j].1 {
                timeline[j].1 + 1 - k
            } else {
                0
            }),
{
    if j == timeline.len() {
        assert(got.0 =~= got.0.take(got.0.len() as int));
        assert(got.1 =~= got.1.take(got.1.len() as int));
    } else if k > timeline[j].1 {
        lemma_timeline(base, pattern, a, b, timeline, scale, start, j + 1, 0, number, got, all);
    } else {
        let u = dash_input::media_url(base, pattern, number)->Ok_0;
        let d = decimal::of_ticks(timeline[j].0 as nat, scale);
        let more = (got.0.push(u), got.1.push(d));
        let i = got.0.len() as int;
        lemma_count_grows(timeline, (j + 1) as nat, timeline.len());
        lemma_timeline(
            base,
            pattern,
            a,
            b,
            timeline,
            scale,
            start,
            j,
            k + 1,
            dash_input::number_after(number, 1),
            more,
            all,
        );
        assert(all.0.take(i + 1)[i] == u);
        assert(all.1.take(i + 1)[i] == d);
        assert(got.0 =~= all.0.take(i)) by {
            assert(all.0.take(i) =~= more.0.take(i));
        }
        assert(got.1 =~= all.1.take(i)) by {
            assert(all.1.take(i) =~= more.1.take(i));
        }
        number_takes_its_place(pattern, a, b, number as nat);
        if scale > 0 {
            lemma_of_ticks(timeline[j].0 as nat, scale);
        }
        assert(entry_is(base, a, b, timeline, scale, start as nat, all, j, k));
    }
}

/// The segments of a timeline are numbered on without a gap, from the first number of the
/// template, over all entries and their repeats, and each lasts as long as its entry says.
pub proof fn timeline_numbers_run_on(
    m: MpdView,
    base: UrlView,
    pattern: Seq<char>,
    a: Seq<char>,
    b: Seq<char>,
)
    requires
        m.timeline.len() > 0,
        one_number(pattern, a, b),
        m.start_number + count_before(m.timeline, m.timeline.len()) <= u32::MAX,
    ensures
        m.segments(base, pattern) matches Ok(all) ==> timeline_is(
            base,
            a,
            b,
            m.timeline,
            m.timescale as nat,
            m.start_number as nat,
            all,
            0,
            0,
        ),
{
    if let Ok(all) = m.segments(base, pattern) {
        lemma_timeline(
            base,
            pattern,
            a,
            b,
            m.timeline,
            m.timescale as nat,
            m.start_number,
            0,
            0,
            m.start_number,
            (Seq::empty(), Seq::empty()),
            all,
        );
    }
}

// Segments of one duration.

#[verifier::rlimit(60)]
proof fn lemma_uniform(
    base: UrlView,
    pattern: Seq<char>,
    total: Decimal,
    d: nat,
    scale: nat,
    start: u32,
    i: nat,
    got: SegmentList,
    all: SegmentList,
)
    requires
        i <= dash_input::uniform_count(total, d, scale),
        got.0.len() == i,
        got.1.len() == i,
        dash_input::uniform_segments(base, pattern, total, d, scale, start, i, got) == Ok::<
            SegmentList,
            ErrorView,
        >(all),
    ensures
        got.0.is_prefix_of(all.0),
        got.1.is_prefix_of(all.1),
        all.0.len() == dash_input::uniform_count(total, d, scale),
        all.1.len() == all.0.len(),
        forall|k: int|
            i <= k < all.0.len() ==> Ok::<Seq<char>, ErrorView>(#[trigger] all.0[k])
                == dash_input::media_url(base, pattern, dash_input::number_after(start, k as nat)),
        forall|k: int|
            i <= k < all.1.len() ==> #[trigger] all.1[k] == dash_input::uniform_duration(
                total,
                d,
                scale,
                k as nat,
            ),
    decreases dash_input::uniform_count(total, d, scale) - i,
{
    if i < dash_input::uniform_count(total, d, scale) {
        let u = dash_input::media_url(base, pattern, dash_input::number_after(start, i))->Ok_0;
        let t = dash_input::uniform_duration(total, d, scale, i);
        let more = (got.0.push(u), got.1.push(t));
        lemma_uniform(base, pattern, total, d, scale, start, i + 1, more, all);
        assert(all.0.take((i + 1) as int)[i as int] == u);
        assert(all.1.take((i + 1) as int)[i as int] == t);
        assert(got.0 =~= all.0.take(i as int)) by {
            assert(all.0.take(i as int) =~= more.0.take(i as int));
        }
        assert(got.1 =~= all.1.take(i as int)) by {
            assert(all.1.take(i as int) =~= more.1.take(i as int));
        }
    } else {
        assert(got.0 =~= got.0.take(got.0.len() as int));
        assert(got.1 =~= got.1.take(got.1.len() as int));
    }
}

/// Whether a list has segments of `d` ticks for a presentation: as many as cover it and no more,
/// numbered on from the first number, each with the full duration but the last, which lasts as
/// long as the presentation has left.
pub open spec fn uniform_is(
    base: UrlView,
    a: Seq<char>,
    b: Seq<char>,
    total: int,
    d: nat,
    scale: nat,
    start: nat,
    list: SegmentList,
) -> bool {
    let n = list.0.len();
    &&& list.1.len() == n
    &&& n > 0
    &&& (n - 1) * d * 1_000_000_000 < total * scale <= n * d * 1_000_000_000
    &&& forall|i: int|
        0 <= i < n ==> Ok::<Seq<char>, ErrorView>(#[trigger] list.0[i]) == hls_input::resolved(
            base,
            a + text::dec((start + i) as nat) + b,
        )
    &&& forall|i: int|
        0 <= i < n ==> ({
            let full = ((d * 1_000_000_000) / scale) as int;
            let left = total - (i * d * 1_000_000_000) / (scale as int);
            (#[trigger] list.1[i]).nanos == if left < full {
                left
            } else {
                full
            }
        })
}

proof fn lemma_cover(t: int, u: int)
    requires
        t > 0,
        u > 0,
    ensures
        ({
            let n = (t + u - 1) / u;
            n >= 1 && (n - 1) * u < t <= n * u
        }),
{
    let n = (t + u - 1) / u;
    assert(t + u - 1 == u * n + (t + u - 1) % u) by {
        vstd::arithmetic::div_mod::lemma_fundamental_div_mod(t + u - 1, u);
    }
    assert(0 <= (t + u - 1) % u < u) by (nonlinear_arith)
        requires
            u > 0,
    ;
    assert((n - 1) * u == u * n - u) by (nonlinear_arith);
    assert(n * u == u * n) by (nonlinear_arith);
    assert(n >= 1) by (nonlinear_arith)
        requires
            t + u - 1 == u * n + (t + u - 1) % u,
            0 <= (t + u - 1) % u < u,
            t > 0,
            u > 0,
    ;
}

/// The segments of one duration cover the presentation: there are as many as it takes, numbered
/// on from the first number of the template, each of the full duration but for the last one,
/// which ends with the presentation.
#[verifier::spinoff_prover]
#[verifier::rlimit(60)]
pub proof fn uniform_segments_cover_the_presentation(
    m: MpdView,
    base: UrlView,
    pattern: Seq<char>,
    a: Seq<char>,
    b: Seq<char>,
)
    requires
        m.timeline.len() == 0,
        m.uniform is Some && m.uniform->0 > 0,
        m.total is Some && 0 < m.total->0.nanos < i128::MAX,
        m.timescale > 0,
        one_number(pattern, a, b),
        m.total->0.nanos * m.timescale <= (u32::MAX - m.start_number) * m.uniform->0
            * 1_000_000_000,
    ensures
        m.segments(base, pattern) matches Ok(all) ==> uniform_is(
            base,
            a,
            b,
            m.total->0.nanos as int,
            m.uniform->0 as nat,
            m.timescale as nat,
            m.start_number as nat,
            all,
        ),
{
    if let Ok(all) = m.segments(base, pattern) {
        let total = m.total->0;
        let d = m.uniform->0 as nat;
        let scale = m.timescale as nat;
        let start = m.start_number;
        let n = dash_input::uniform_count(total, d, scale);
        let t = total.nanos * scale;
        let u = (d * 1_000_000_000) as int;
        assert(t > 0) by (nonlinear_arith)
            requires
                t == total.nanos * scale,
                total.nanos > 0,
                scale > 0,
        ;
        lemma_cover(t, u);
        let exact = (t + u - 1) / u;
        assert((u32::MAX - start) * d * 1_000_000_000 == (u32::MAX - start) * u)
            by (nonlinear_arith)
            requires
                u == d * 1_000_000_000,
        ;
        assert(exact <= u32::MAX - start) by (nonlinear_arith)
            requires
                (exact - 1) * u < t,
                t <= (u32::MAX - start) * u,
                u > 0,
        ;
        assert(n == exact);
        lemma_uniform(
            base,
            pattern,
            total,
            d,
            scale,
            start,
            0,
            (Seq::empty(), Seq::empty()),
            all,
        );
        assert((n - 1) * d * 1_000_000_000 == (n - 1) * u) by (nonlinear_arith)
            requires
                u == d * 1_000_000_000,
        ;
        assert(n * d * 1_000_000_000 == n * u) by (nonlinear_arith)
            requires
                u == d * 1_000_000_000,
        ;
        lemma_of_ticks(d, scale);
        assert forall|i: int| 0 <= i < n implies Ok::<Seq<char>, ErrorView>(#[trigger] all.0[i])
            == hls_input::resolved(base, a + text::dec((start + i) as nat) + b) by {
            number_takes_its_place(pattern, a, b, (start + i) as nat);
        }
        assert forall|i: int| 0 <= i < n implies ({
            let full = ((d * 1_000_000_000) / scale) as int;
            let left = total.nanos - (i * d * 1_000_000_000) / (scale as int);
            (#[trigger] all.1[i]).nanos == if left < full {
                left
            } else {
                full
            }
        }) by {
            assert(all.1[i] == dash_input::uniform_duration(total, d, scale, i as nat));
            lemma_left(total, i as nat, d, scale);
        }
    }
}

proof fn lemma_left(total: Decimal, i: nat, d: nat, scale: nat)
    requires
        0 < total.nanos < i128::MAX,
        i <= u32::MAX,
        d <= u64::MAX,
        scale > 0,
    ensures
        ({
            let off = (i * d * 1_000_000_000) / scale;
            total.sum(Decimal { nanos: (-off) as i128 }).nanos == total.nanos - off
        }),
        (i * d * 1_000_000_000) / scale == (i as int * d * 1_000_000_000) / (scale as int),
{
    let off = (i * d * 1_000_000_000) / scale;
    assert(i * d <= 0xFFFF_FFFF * 0xFFFF_FFFF_FFFF_FFFF) by (nonlinear_arith)
        requires
            i <= 0xFFFF_FFFF,
            d <= 0xFFFF_FFFF_FFFF_FFFF,
    ;
    assert(off <= i * d * 1_000_000_000) by (nonlinear_arith)
        requires
            off == (i * d * 1_000_000_000) / scale,
            scale > 0,
    ;
}

// Tags.

/// Whether the last attribute with a name has a value.
pub open spec fn given(attrs: AttrSeq, name: Seq<char>, value: Seq<char>) -> bool {
    exists|k: int| #[trigger] given_at(attrs, name, value, k)
}

/// Whether attribute `k` has a name and a value, and no later one has the name.
pub open spec fn given_at(attrs: AttrSeq, name: Seq<char>, value: Seq<char>, k: int) -> bool {
    &&& 0 <= k < attrs.len()
    &&& attrs[k] is Some
    &&& (attrs[k]->0).0 == cmaf::utf8(name)
    &&& text::lossy_text((attrs[k]->0).1) == value
    &&& forall|i: int|
        k < i < attrs.len() && #[trigger] attrs[i] is Some ==> (attrs[i]->0).0 != cmaf::utf8(name)
}

/// Whether no attribute has a name.
pub open spec fn absent(attrs: AttrSeq, name: Seq<char>) -> bool {
    forall|i: int|
        0 <= i < attrs.len() && #[trigger] attrs[i] is Some ==> (attrs[i]->0).0 != cmaf::utf8(name)
}

proof fn lemma_given_at(attrs: AttrSeq, name: Seq<char>, value: Seq<char>, k: int, n: nat)
    requires
        given_at(attrs, name, value, k),
        k < n <= attrs.len(),
    ensures
        dash_input::last_value(attrs, name, n) == Some((attrs[k]->0).1),
    decreases n,
{
    if n - 1 > k {
        lemma_given_at(attrs, name, value, k, (n - 1) as nat);
    }
}

/// A given attribute is read.
pub proof fn lemma_given(attrs: AttrSeq, name: Seq<char>, value: Seq<char>)
    requires
        given(attrs, name, value),
    ensures
        dash_input::attr(attrs, name) == Some(value),
{
    let k = choose|k: int| #[trigger] given_at(attrs, name, value, k);
    lemma_given_at(attrs, name, value, k, attrs.len());
}

pub proof fn lemma_absent(attrs: AttrSeq, name: Seq<char>, n: nat)
    requires
        absent(attrs, name),
        n <= attrs.len(),
    ensures
        dash_input::last_value(attrs, name, n) is None,
    decreases n,
{
    if n > 0 {
        lemma_absent(attrs, name, (n - 1) as nat);
    }
}

proof fn lemma_set_is_video(attrs: AttrSeq, k: int, n: nat)
    requires
        given_at(attrs, "contentType"@, "video"@, k),
        k < n <= attrs.len(),
    ensures
        dash_input::set_video(attrs, n, false),
    decreases n,
{
    if n - 1 > k {
        lemma_set_is_video(attrs, k, (n - 1) as nat);
    }
}

/// Texts with the same UTF-8 form are the same.
pub proof fn lemma_utf8_one_way(a: Seq<char>, b: Seq<char>)
    requires
        a != b,
    ensures
        cmaf::utf8(a) != cmaf::utf8(b),
{
    vstd::utf8::encode_utf8_decode_utf8(a);
    vstd::utf8::encode_utf8_decode_utf8(b);
}

/// Digits that were written for a number stand for it.
pub proof fn written_number_is_read(n: nat, max: nat)
    requires
        n <= max,
    ensures
        chars::number_of(text::dec(n), max) == Some(n),
{
    lemma_dec(n);
    assert(text::dec(n)[0] != '+') by {
        assert(chars::is_digit(text::dec(n)[0]));
    }
}

pub proof fn lemma_dec(n: nat)
    ensures
        text::dec(n).len() > 0,
        chars::all_digits(text::dec(n)),
        chars::digits_value(text::dec(n)) == n,
    decreases n,
{
    let s = text::dec(n);
    if n >= 10 {
        lemma_dec(n / 10);
        assert(s.drop_last() =~= text::dec(n / 10));
    } else {
        assert(s.drop_last() =~= Seq::empty());
        assert(chars::digits_value(s.drop_last()) == 0);
    }
    assert(chars::digits_value(s) == chars::digits_value(s.drop_last()) * 10 + chars::digit_value(
        s.last(),
    ));
    let last = text::digit((n % 10) as int);
    assert(s.last() == last);
    assert(chars::digit_value(last) == n % 10);
}

/// The tag of an element.
pub open spec fn tag(e: Result<EventView, Seq<char>>, name: Seq<char>, attrs: AttrSeq) -> bool {
    e matches Ok(EventView::Tag(n, list, _)) && n == cmaf::utf8(name) && list == attrs
}

/// Whether an event is the entry of a timeline, with a duration and, where it is repeated, a
/// count of repeats.
pub open spec fn timeline_tag(e: Result<EventView, Seq<char>>, d: u64, r: u32) -> bool {
    exists|attrs: AttrSeq| #[trigger]
        tag(e, "S"@, attrs) && given(attrs, "d"@, text::dec(d as nat)) && (given(
            attrs,
            "r"@,
            text::dec(r as nat),
        ) || (r == 0 && absent(attrs, "r"@)))
}

proof fn lemma_names()
    ensures
        "S"@ != "MPD"@,
        "S"@ != "AdaptationSet"@,
        "S"@ != "Representation"@,
        "S"@ != "BaseURL"@,
        "S"@ != "SegmentBase"@,
        "S"@ != "Initialization"@,
        "S"@ != "SegmentTemplate"@,
        "SegmentTemplate"@ != "MPD"@,
        "SegmentTemplate"@ != "AdaptationSet"@,
        "SegmentTemplate"@ != "Representation"@,
        "SegmentTemplate"@ != "BaseURL"@,
        "SegmentTemplate"@ != "SegmentBase"@,
        "SegmentTemplate"@ != "Initialization"@,
        "AdaptationSet"@ != "MPD"@,
{
    reveal_strlit("S");
    reveal_strlit("MPD");
    reveal_strlit("AdaptationSet");
    reveal_strlit("Representation");
    reveal_strlit("BaseURL");
    reveal_strlit("SegmentBase");
    reveal_strlit("Initialization");
    reveal_strlit("SegmentTemplate");
    assert("S"@.len() == 1);
    assert("MPD"@.len() == 3);
    assert("BaseURL"@.len() == 7);
    assert("SegmentBase"@.len() == 11);
    assert("SegmentTemplate"@.len() == 15);
    assert("Initialization"@.len() == 14);
    assert("AdaptationSet"@.len() == 13);
    assert("Representation"@.len() == 14);
}

#[verifier::rlimit(60)]
proof fn lemma_entry_step(m: MpdView, e: Result<EventView, Seq<char>>, d: u64, r: u32)
    requires
        timeline_tag(e, d, r),
        m.capturing,
        d > 0,
    ensures
        m.step(e->Ok_0) == (MpdView { timeline: m.timeline.push((d, r)), ..m }),
{
    let attrs = choose|attrs: AttrSeq| #[trigger]
        tag(e, "S"@, attrs) && given(attrs, "d"@, text::dec(d as nat)) && (given(
            attrs,
            "r"@,
            text::dec(r as nat),
        ) || (r == 0 && absent(attrs, "r"@)));
    lemma_names();
    lemma_utf8_one_way("S"@, "MPD"@);
    lemma_utf8_one_way("S"@, "AdaptationSet"@);
    lemma_utf8_one_way("S"@, "Representation"@);
    lemma_utf8_one_way("S"@, "BaseURL"@);
    lemma_utf8_one_way("S"@, "SegmentBase"@);
    lemma_utf8_one_way("S"@, "Initialization"@);
    lemma_utf8_one_way("S"@, "SegmentTemplate"@);
    lemma_given(attrs, "d"@, text::dec(d as nat));
    written_number_is_read(d as nat, u64::MAX as nat);
    written_number_is_read(r as nat, u32::MAX as nat);
    if given(attrs, "r"@, text::dec(r as nat)) {
        lemma_given(attrs, "r"@, text::dec(r as nat));
    } else {
        lemma_absent(attrs, "r"@, attrs.len());
    }
    assert(m.step(e->Ok_0) == m.on_entry(attrs));
}

proof fn lemma_entries_read(
    m: MpdView,
    events: Seq<Result<EventView, Seq<char>>>,
    at: int,
    timeline: Seq<(u64, u32)>,
    k: int,
)
    requires
        0 <= at,
        0 <= k <= timeline.len(),
        events.len() == at + timeline.len(),
        forall|j: int|
            0 <= j < timeline.len() ==> timeline_tag(
                #[trigger] events[at + j],
                timeline[j].0,
                timeline[j].1,
            ) && timeline[j].0 > 0,
        m.capturing,
    ensures
        m.steps(events, at + k) == Ok::<MpdView, ErrorView>(
            MpdView { timeline: m.timeline + timeline.skip(k), ..m },
        ),
    decreases timeline.len() - k,
{
    if k < timeline.len() {
        assert(timeline_tag(events[at + k], timeline[k].0, timeline[k].1));
        lemma_entry_step(m, events[at + k], timeline[k].0, timeline[k].1);
        let next = m.step(events[at + k]->Ok_0);
        lemma_entries_read(next, events, at, timeline, k + 1);
        assert(m.timeline.push(timeline[k]) + timeline.skip(k + 1) =~= m.timeline + timeline.skip(
            k,
        ));
    } else {
        assert(m.timeline + timeline.skip(k) =~= m.timeline);
    }
}

/// Whether a tag is a segment template with the given media template, first number and
/// timescale.
pub open spec fn template_tag(
    attrs: AttrSeq,
    init: Seq<char>,
    media: Seq<char>,
    start: u32,
    scale: u64,
) -> bool {
    &&& given(attrs, "initialization"@, init)
    &&& given(attrs, "media"@, media)
    &&& given(attrs, "startNumber"@, text::dec(start as nat)) || (start == 0 && absent(
        attrs,
        "startNumber"@,
    ))
    &&& given(attrs, "timescale"@, text::dec(scale as nat)) || (scale == 1 && absent(
        attrs,
        "timescale"@,
    ))
}

/// The segment template of a video set.
#[verifier::rlimit(60)]
proof fn lemma_template_step(
    m: MpdView,
    e: Result<EventView, Seq<char>>,
    attrs: AttrSeq,
    init: Seq<char>,
    media: Seq<char>,
    start: u32,
    scale: u64,
)
    requires
        tag(e, "SegmentTemplate"@, attrs),
        template_tag(attrs, init, media, start, scale),
        !m.video_template,
        m.set_is_video,
        m.start_number == 0,
        m.timescale == 1,
    ensures
        ({
            let n = m.step(e->Ok_0);
            &&& n.capturing
            &&& n.timeline == Seq::<(u64, u32)>::empty()
            &&& n.media_template == Some(media)
            &&& n.init_template == Some(init)
            &&& n.start_number == start
            &&& n.timescale == scale
            &&& n.base_override == m.base_override
            &&& n.scheme == m.scheme
            &&& n.live == m.live
        }),
{
    let name = "SegmentTemplate"@;
    lemma_names();
    lemma_utf8_one_way(name, "MPD"@);
    lemma_utf8_one_way(name, "AdaptationSet"@);
    lemma_utf8_one_way(name, "Representation"@);
    lemma_utf8_one_way(name, "BaseURL"@);
    lemma_utf8_one_way(name, "SegmentBase"@);
    lemma_utf8_one_way(name, "Initialization"@);
    lemma_given(attrs, "initialization"@, init);
    lemma_given(attrs, "media"@, media);
    written_number_is_read(start as nat, u32::MAX as nat);
    written_number_is_read(scale as nat, u64::MAX as nat);
    if given(attrs, "startNumber"@, text::dec(start as nat)) {
        lemma_given(attrs, "startNumber"@, text::dec(start as nat));
    } else {
        lemma_absent(attrs, "startNumber"@, attrs.len());
    }
    if given(attrs, "timescale"@, text::dec(scale as nat)) {
        lemma_given(attrs, "timescale"@, text::dec(scale as nat));
    } else {
        lemma_absent(attrs, "timescale"@, attrs.len());
    }
    assert(m.step(e->Ok_0) == m.on_template(attrs));
}

/// An MPD with a video set, a segment template and a timeline describes the segments of that
/// timeline: segment `i` over all entries and repeats has the URL of the media template with the
/// first number plus `i` in it, and the duration of its entry. The initialization segment is the
/// one of the template.
#[verifier::spinoff_prover]
#[verifier::rlimit(60)]
pub proof fn timeline_mpd_describes_its_segments(
    events: Seq<Result<EventView, Seq<char>>>,
    manifest_url: Seq<char>,
    base: UrlView,
    set: AttrSeq,
    template: AttrSeq,
    init: Seq<char>,
    a: Seq<char>,
    b: Seq<char>,
    start: u32,
    scale: u64,
    timeline: Seq<(u64, u32)>,
    src: SourceView,
)
    requires
        events.len() == 2 + timeline.len(),
        tag(events[0], "AdaptationSet"@, set),
        given(set, "contentType"@, "video"@),
        tag(events[1], "SegmentTemplate"@, template),
        template_tag(template, init, a + "$Number$"@ + b, start, scale),
        forall|j: int|
            0 <= j < timeline.len() ==> timeline_tag(
                #[trigger] events[2 + j],
                timeline[j].0,
                timeline[j].1,
            ) && timeline[j].0 > 0,
        timeline.len() > 0,
        one_number(a + "$Number$"@ + b, a, b),
        start + count_before(timeline, timeline.len()) <= u32::MAX,
        hls_input::base_of(manifest_url) == Ok::<UrlView, ErrorView>(base),
        dash_input::dash_source(events, manifest_url) == Ok::<SourceView, ErrorView>(src),
    ensures
        Ok::<Seq<char>, ErrorView>(src.init_segment_url) == hls_input::resolved(base, init),
        timeline_is(
            base,
            a,
            b,
            timeline,
            scale as nat,
            start as nat,
            (src.segment_urls, src.segment_durations),
            0,
            0,
        ),
{
    let m0 = MpdView::fresh();
    lemma_names();
    lemma_utf8_one_way("AdaptationSet"@, "MPD"@);
    let k = choose|k: int| #[trigger] given_at(set, "contentType"@, "video"@, k);
    lemma_set_is_video(set, k, set.len());
    let m1 = m0.step(events[0]->Ok_0);
    assert(m1.set_is_video && !m1.video_template && m1.start_number == 0 && m1.timescale == 1);
    lemma_template_step(m1, events[1], template, init, a + "$Number$"@ + b, start, scale);
    let m2 = m1.step(events[1]->Ok_0);
    lemma_entries_read(m2, events, 2, timeline, 0);
    assert(m2.timeline + timeline.skip(0) =~= timeline);
    let m = MpdView { timeline, ..m2 };
    assert(m2.steps(events, 2) == Ok::<MpdView, ErrorView>(m));
    assert(m1.steps(events, 1) == m2.steps(events, 2));
    assert(m0.steps(events, 0) == m1.steps(events, 1));
    timeline_numbers_run_on(m, base, a + "$Number$"@ + b, a, b);
}

} // verus!
