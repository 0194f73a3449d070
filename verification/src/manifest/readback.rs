//! A media playlist that was written is read back.

use crate::b64;
use crate::chars;
use crate::decimal;
use crate::decimal::Decimal;
use crate::error::ErrorView;
use crate::manifest::hls;
use crate::manifest::hls_input;
use crate::manifest::hls_input::PlaylistView;
use crate::manifest::timeline;
use crate::manifest::types;
use crate::manifest::types::InSegment;
use crate::manifest::types::{
    AdBreakInfo, ManifestDrmInfo, ManifestState, PartInfo, SegmentInfo, ServerControl, SourceView,
};
use crate::text;
use crate::url::UrlView;
use vstd::prelude::*;

verus! {

// Lines.

/// Whether a text has no line break in it.
pub open spec fn one_line(t: Seq<char>) -> bool {
    forall|i: int| 0 <= i < t.len() ==> #[trigger] t[i] != '\n'
}

/// The first `n` lines, each with its line break.
pub open spec fn flat(lines: Seq<Seq<char>>, n: nat) -> Seq<char>
    decreases n,
{
    if n == 0 {
        Seq::empty()
    } else {
        flat(lines, (n - 1) as nat) + lines[n - 1] + seq!['\n']
    }
}

/// Whether a text is made of whole lines.
pub open spec fn is_lines(t: Seq<char>, lines: Seq<Seq<char>>) -> bool {
    t == flat(lines, lines.len()) && forall|k: int|
        0 <= k < lines.len() ==> one_line(#[trigger] lines[k])
}

pub proof fn lemma_char_at(s: Seq<char>, c: char, i: int, n: int)
    requires
        0 <= i <= n < s.len(),
        s[n] == c,
        forall|k: int| i <= k < n ==> #[trigger] s[k] != c,
    ensures
        chars::char_from(s, c, i) == n,
    decreases n - i,
{
    if i < n {
        lemma_char_at(s, c, i + 1, n);
    }
}

proof fn lemma_flat_splits(lines: Seq<Seq<char>>, k: nat, n: nat)
    requires
        k < n <= lines.len(),
    ensures
        flat(lines, k) + lines[k as int] + seq!['\n'] == flat(lines, n).take(
            (flat(lines, k).len() + lines[k as int].len() + 1) as int,
        ),
        flat(lines, k).len() + lines[k as int].len() + 1 <= flat(lines, n).len(),
    decreases n,
{
    let part = flat(lines, k) + lines[k as int] + seq!['\n'];
    if k + 1 == n {
        assert(part.take(part.len() as int) =~= part);
    } else {
        lemma_flat_splits(lines, k, (n - 1) as nat);
        assert(flat(lines, n).take(part.len() as int) =~= flat(lines, (n - 1) as nat).take(
            part.len() as int,
        ));
    }
}

proof fn lemma_pieces_from(t: Seq<char>, lines: Seq<Seq<char>>, k: nat)
    requires
        is_lines(t, lines),
        k <= lines.len(),
    ensures
        chars::pieces_from(t, '\n', flat(lines, k).len() as int, lines.take(k as int))
            == lines.push(Seq::empty()),
    decreases lines.len() - k,
{
    let start = flat(lines, k).len() as int;
    if k < lines.len() {
        let line = lines[k as int];
        lemma_flat_splits(lines, k, lines.len());
        let part = flat(lines, k) + line + seq!['\n'];
        assert(t.take(part.len() as int) == part);
        assert forall|i: int| start <= i < start + line.len() implies #[trigger] t[i] != '\n' by {
            assert(t[i] == part[i]);
            assert(part[i] == line[i - start]);
        }
        assert(t[start + line.len()] == part[start + line.len()]);
        lemma_char_at(t, '\n', start, start + line.len());
        assert(t.subrange(start, start + line.len()) =~= line) by {
            assert(t.subrange(start, start + line.len()) =~= part.subrange(
                start,
                start + line.len(),
            ));
        }
        assert(lines.take(k as int).push(line) =~= lines.take((k + 1) as int));
        lemma_pieces_from(t, lines, k + 1);
    } else {
        assert(t.subrange(start, start) =~= Seq::empty());
        assert(chars::char_from(t, '\n', start) == start);
        assert(lines.take(k as int) =~= lines);
        assert(chars::pieces_from(t, '\n', start + 1, lines.push(Seq::empty())) == lines.push(
            Seq::empty(),
        ));
    }
}

/// The lines of a text that is made of them are read, and an empty one behind the last break.
proof fn lemma_pieces(t: Seq<char>, lines: Seq<Seq<char>>)
    requires
        is_lines(t, lines),
    ensures
        chars::pieces(t, '\n') == lines.push(Seq::empty()),
{
    assert(lines.take(0) =~= Seq::empty());
    lemma_pieces_from(t, lines, 0);
}

proof fn lemma_flat_both(a: Seq<Seq<char>>, b: Seq<Seq<char>>, n: nat)
    requires
        n <= b.len(),
    ensures
        flat(a + b, a.len() + n) == flat(a, a.len()) + flat(b, n),
    decreases n,
{
    if n == 0 {
        lemma_flat_same(a + b, a, a.len());
        assert(flat(a, a.len()) + Seq::<char>::empty() =~= flat(a, a.len()));
    } else {
        lemma_flat_both(a, b, (n - 1) as nat);
        assert((a + b)[a.len() + n - 1] == b[n - 1]);
        assert(flat(a + b, a.len() + n) =~= flat(a, a.len()) + flat(b, n));
    }
}

proof fn lemma_flat_same(a: Seq<Seq<char>>, b: Seq<Seq<char>>, n: nat)
    requires
        n <= a.len(),
        n <= b.len(),
        forall|k: int| 0 <= k < n ==> a[k] == b[k],
    ensures
        flat(a, n) == flat(b, n),
    decreases n,
{
    if n > 0 {
        lemma_flat_same(a, b, (n - 1) as nat);
    }
}

/// Two texts that are made of lines, one after the other.
proof fn lemma_lines_both(t: Seq<char>, a: Seq<Seq<char>>, u: Seq<char>, b: Seq<Seq<char>>)
    requires
        is_lines(t, a),
        is_lines(u, b),
    ensures
        is_lines(t + u, a + b),
{
    lemma_flat_both(a, b, b.len());
}

proof fn lemma_one_line(line: Seq<char>)
    requires
        one_line(line),
    ensures
        is_lines(line + seq!['\n'], seq![line]),
{
    let lines = seq![line];
    assert(flat(lines, 0) == Seq::<char>::empty());
    assert(flat(lines, 1) =~= line + seq!['\n']);
}

// Trimming.

proof fn lemma_right_trimmed(s: Seq<char>)
    ensures
        chars::right_trimmed(s).is_prefix_of(s),
        s.len() > 0 && !chars::is_space(s[0]) ==> chars::right_trimmed(s).len() > 0,
    decreases s.len(),
{
    if s.len() > 0 && chars::is_space(s[s.len() - 1]) {
        let m = s.subrange(0, s.len() - 1);
        lemma_right_trimmed(m);
        let r = chars::right_trimmed(m);
        assert(r =~= s.take(r.len() as int)) by {
            assert(s.take(r.len() as int) =~= m.take(r.len() as int));
        }
    } else {
        assert(s.take(s.len() as int) =~= s);
    }
}

/// A line that starts with a number sign is cut at its end only.
proof fn lemma_trimmed_tag(s: Seq<char>)
    requires
        s.len() > 0,
        s[0] == '#',
    ensures
        chars::trimmed(s).is_prefix_of(s),
        chars::trimmed(s).len() > 0,
        chars::trimmed(s)[0] == '#',
{
    lemma_right_trimmed(s);
    let r = chars::right_trimmed(s);
    assert(s.take(r.len() as int)[0] == s[0]);
}

// Tags.

/// Whether a line is a tag that says nothing of segments, of the initialization segment or of the
/// end.
pub open spec fn tag_line(l: Seq<char>) -> bool {
    &&& one_line(l)
    &&& l.len() > 0
    &&& l[0] == '#'
    &&& l.len() > 4 ==> l[4] != 'I'
    &&& l.len() > 8 ==> !(l[7] == 'M' && l[8] == 'A')
    &&& l.len() > 8 ==> !(l[7] == 'E' && l[8] == 'N')
}

/// Whether a text is made of such lines.
pub open spec fn tags(t: Seq<char>) -> bool {
    exists|lines: Seq<Seq<char>>| #[trigger] tag_lines(t, lines)
}

/// Whether a text is made of the given lines, all of them such ones.
pub open spec fn tag_lines(t: Seq<char>, lines: Seq<Seq<char>>) -> bool {
    is_lines(t, lines) && forall|k: int| 0 <= k < lines.len() ==> tag_line(#[trigger] lines[k])
}

proof fn lemma_tags_none()
    ensures
        tags(Seq::<char>::empty()),
{
    assert(tag_lines(Seq::<char>::empty(), Seq::<Seq<char>>::empty()));
}

proof fn lemma_tags_one(line: Seq<char>, t: Seq<char>)
    requires
        tag_line(line),
        t == line + seq!['\n'],
    ensures
        tags(t),
{
    lemma_one_line(line);
    assert(tag_lines(t, seq![line]));
}

proof fn lemma_tags_both(t: Seq<char>, u: Seq<char>)
    requires
        tags(t),
        tags(u),
    ensures
        tags(t + u),
{
    let a = choose|lines: Seq<Seq<char>>| #[trigger] tag_lines(t, lines);
    let b = choose|lines: Seq<Seq<char>>| #[trigger] tag_lines(u, lines);
    lemma_lines_both(t, a, u, b);
    let c = a + b;
    assert forall|k: int| 0 <= k < c.len() implies tag_line(#[trigger] c[k]) by {
        if k < a.len() {
            assert(c[k] == a[k]);
        } else {
            assert(c[k] == b[k - a.len()]);
        }
    }
    assert(tag_lines(t + u, c));
}

/// Whether two states of reading agree on segments, initialization segment and end.
pub open spec fn same_segments(p: PlaylistView, q: PlaylistView) -> bool {
    &&& p.init == q.init
    &&& p.urls == q.urls
    &&& p.durations == q.durations
    &&& p.live == q.live
    &&& p.pending == q.pending
}

#[verifier::rlimit(60)]
proof fn lemma_tag_step(p: PlaylistView, base: UrlView, line: Seq<char>)
    requires
        tag_line(line),
    ensures
        p.step(base, chars::trimmed(line)) matches Ok(q) ==> same_segments(p, q),
{
    let l = chars::trimmed(line);
    lemma_trimmed_tag(line);
    assert(forall|i: int| 0 <= i < l.len() ==> l[i] == line.take(l.len() as int)[i]);
    reveal_strlit("#EXT-X-MAP:");
    reveal_strlit("#EXTINF:");
    reveal_strlit("#EXT-X-ENDLIST");
    if chars::starts(l, "#EXT-X-MAP:"@) {
        assert(l.subrange(0, 11)[7] == 'M' && l.subrange(0, 11)[8] == 'A');
    }
    if chars::starts(l, "#EXTINF:"@) {
        assert(l.subrange(0, 8)[4] == 'I');
    }
    if chars::starts(l, "#EXT-X-ENDLIST"@) {
        assert(l.subrange(0, 14)[7] == 'E' && l.subrange(0, 14)[8] == 'N');
    }
}

/// Reading the lines from `i` up to `j`.
pub open spec fn reads(
    base: UrlView,
    lines: Seq<Seq<char>>,
    i: int,
    j: int,
    p: PlaylistView,
    q: PlaylistView,
) -> bool {
    p.steps(base, lines, i) == q.steps(base, lines, j)
}

/// Tags say nothing of segments.
proof fn lemma_tags_read(
    base: UrlView,
    all: Seq<Seq<char>>,
    i: int,
    lines: Seq<Seq<char>>,
    k: int,
    p: PlaylistView,
) -> (q: PlaylistView)
    requires
        0 <= i,
        0 <= k <= lines.len(),
        i + lines.len() <= all.len(),
        all.subrange(i, i + lines.len()) == lines,
        forall|j: int| 0 <= j < lines.len() ==> tag_line(#[trigger] lines[j]),
        p.steps(base, all, i + k) is Ok,
    ensures
        same_segments(p, q),
        reads(base, all, i + k, (i + lines.len()) as int, p, q),
    decreases lines.len() - k,
{
    if k < lines.len() {
        assert(all.subrange(i, i + lines.len())[k] == all[i + k]);
        assert(tag_line(lines[k]));
        lemma_tag_step(p, base, lines[k]);
        let next = p.step(base, chars::trimmed(lines[k]))->Ok_0;
        let q = lemma_tags_read(base, all, i, lines, k + 1, next);
        q
    } else {
        p
    }
}

// Written decimals.

proof fn lemma_digits_join(a: Seq<char>, b: Seq<char>)
    ensures
        chars::digits_value(a + b) == chars::digits_value(a) * decimal::ten_to(b.len())
            + chars::digits_value(b),
    decreases b.len(),
{
    if b.len() == 0 {
        assert(a + b =~= a);
        assert(chars::digits_value(b) == 0);
        assert(chars::digits_value(a) * 1 == chars::digits_value(a));
    } else {
        let c = b.drop_last();
        lemma_digits_join(a, c);
        assert((a + b).drop_last() =~= a + c);
        assert((a + b).last() == b.last());
        let v = chars::digits_value(a);
        let t = decimal::ten_to(c.len());
        assert(decimal::ten_to(b.len()) == 10 * t);
        assert((v * t) * 10 == v * (10 * t)) by (nonlinear_arith);
        assert((v * t + chars::digits_value(c)) * 10 == (v * t) * 10 + chars::digits_value(c) * 10);
    }
}

proof fn lemma_zeros_value(n: nat)
    ensures
        chars::digits_value(Seq::new(n, |i: int| '0')) == 0,
        chars::all_digits(Seq::new(n, |i: int| '0')),
    decreases n,
{
    let s = Seq::new(n, |i: int| '0');
    if n > 0 {
        lemma_zeros_value((n - 1) as nat);
        assert(s.drop_last() =~= Seq::new((n - 1) as nat, |i: int| '0'));
        assert(chars::digit_value('0') == 0);
    }
}

proof fn lemma_dec_length(n: nat, width: nat)
    requires
        n < decimal::ten_to(width),
        width > 0,
    ensures
        text::dec(n).len() <= width,
    decreases width,
{
    if n >= 10 {
        if width == 1 {
            assert(decimal::ten_to(1) == 10) by {
                reveal_with_fuel(decimal::ten_to, 3);
            }
        } else {
            lemma_dec_length(n / 10, (width - 1) as nat);
        }
    }
}

/// Digits that were filled up with zeros stand for the number, and are as many as asked for.
pub proof fn lemma_padded(n: nat, width: nat)
    requires
        n < decimal::ten_to(width),
        width > 0,
    ensures
        text::dec_padded(n, width).len() == width,
        chars::all_digits(text::dec_padded(n, width)),
        chars::digits_value(text::dec_padded(n, width)) == n,
{
    timeline::lemma_dec(n);
    lemma_dec_length(n, width);
    if text::dec(n).len() < width {
        let zeros = Seq::new((width - text::dec(n).len()) as nat, |i: int| '0');
        lemma_zeros_value((width - text::dec(n).len()) as nat);
        lemma_digits_join(zeros, text::dec(n));
        assert(0 * decimal::ten_to(text::dec(n).len()) == 0) by (nonlinear_arith);
        let s = zeros + text::dec(n);
        assert forall|i: int| 0 <= i < s.len() implies chars::is_digit(#[trigger] s[i]) by {
            if i < zeros.len() {
                assert(s[i] == zeros[i]);
            } else {
                assert(s[i] == text::dec(n)[i - zeros.len()]);
            }
        }
    }
}

proof fn lemma_leading_digits(s: Seq<char>, n: nat)
    requires
        n <= s.len(),
    ensures
        decimal::leading_value(s, n) == chars::digits_value(s.take(n as int)),
    decreases n,
{
    if n > 0 {
        lemma_leading_digits(s, (n - 1) as nat);
        assert(s.take(n as int).drop_last() =~= s.take(n - 1));
    }
}

proof fn lemma_no_mark(u: Seq<char>, i: int)
    requires
        0 <= i <= u.len(),
        forall|k: int| 0 <= k < u.len() ==> #[trigger] u[k] != 'e' && u[k] != 'E',
    ensures
        decimal::mark_from(u, i) == u.len(),
    decreases u.len() - i,
{
    if i < u.len() {
        lemma_no_mark(u, i + 1);
    }
}

/// The billionths that digits with a point and `places` of them behind it stand for.
#[verifier::rlimit(60)]
proof fn lemma_point(w: nat, f: nat, places: nat)
    requires
        1 <= places <= 9,
        f < decimal::ten_to(places),
    ensures
        ({
            let u = text::dec(w) + "."@ + text::dec_padded(f, places);
            &&& decimal::magnitude(u) == Some(
                (w * decimal::ten_to(places) + f) * decimal::ten_to((9 - places) as nat),
            )
            &&& chars::is_digit(u[0])
            &&& forall|k: int| 0 <= k < u.len() ==> chars::is_digit(#[trigger] u[k]) || u[k] == '.'
        }),
{
    let whole = text::dec(w);
    let fraction = text::dec_padded(f, places);
    let u = whole + "."@ + fraction;
    reveal_strlit(".");
    timeline::lemma_dec(w);
    lemma_padded(f, places);
    let n = whole.len() as int;
    assert(u[0] == whole[0]);
    assert forall|k: int| 0 <= k < u.len() implies chars::is_digit(#[trigger] u[k]) || u[k]
        == '.' by {
        if k < n {
            assert(u[k] == whole[k]);
        } else if k > n {
            assert(u[k] == fraction[k - n - 1]);
        }
    }
    lemma_no_mark(u, 0);
    assert(decimal::mantissa(u) =~= u);
    assert forall|k: int| 0 <= k < n implies #[trigger] u[k] != '.' by {
        assert(u[k] == whole[k]);
    }
    lemma_char_at(u, '.', 0, n);
    assert(decimal::whole_part(u) =~= whole);
    assert(decimal::fraction_part(u) =~= fraction);
    let digits = whole + fraction;
    lemma_digits_join(whole, fraction);
    lemma_leading_digits(digits, digits.len());
    assert(digits.take(digits.len() as int) =~= digits);
    let zeros = (9 - places) as nat;
    decimal::lemma_leading_zeros(digits, zeros);
    assert(digits.len() + zeros == whole.len() + 9);
}

/// A number that was written with `places` decimal places is read back to within half of the
/// last one. Infinity and what is close to it are left out.
#[verifier::rlimit(60)]
pub proof fn written_decimal_is_read(d: Decimal, places: nat)
    requires
        1 <= places <= 9,
        d.size() < 100_000_000_000_000_000_000_000_000_000_000_000_000,
    ensures
        decimal::decimal_of(d.fixed(places)) matches Some(r) && {
            let unit = decimal::ten_to((9 - places) as nat);
            -unit <= 2 * (r.nanos - d.nanos) <= unit
        },
        forall|k: int|
            0 <= k < d.fixed(places).len() ==> chars::is_digit(#[trigger] d.fixed(places)[k])
                || d.fixed(places)[k] == '.' || d.fixed(places)[k] == '-',
        d.fixed(places).len() > 0,
{
    let unit = decimal::ten_to((9 - places) as nat);
    let shown = decimal::ten_to(places);
    assert(1 <= unit <= 100_000_000 && 10 <= shown <= 1_000_000_000 && unit * shown
        == 1_000_000_000) by {
        lemma_units(places);
    }
    let size = d.size();
    let scaled = decimal::rounded(size, unit);
    let w = scaled / shown;
    let f = scaled % shown;
    let u = text::dec(w) + "."@ + text::dec_padded(f, places);
    lemma_point(w, f, places);
    assert(w * shown + f == scaled) by (nonlinear_arith)
        requires
            w == scaled / shown,
            f == scaled % shown,
            shown > 0,
    ;
    let q = size / unit;
    let rest = size % unit;
    assert(size == q * unit + rest && rest < unit) by (nonlinear_arith)
        requires
            q == size / unit,
            rest == size % unit,
            unit > 0,
    ;
    let n = scaled * unit;
    assert((q + 1) * unit == q * unit + unit) by (nonlinear_arith);
    assert(-(unit as int) <= 2 * (n - size) <= unit);
    let s = d.fixed(places);
    reveal_strlit("-");
    assert(s == d.sign() + text::dec(w) + "."@ + text::dec_padded(f, places));
    assert(s =~= d.sign() + u);
    assert(decimal::magnitude_part(s) =~= u) by {
        if d.nanos < 0 {
            assert(s[0] == '-');
            assert(s.subrange(1, s.len() as int) =~= u);
        } else {
            assert(s =~= u);
        }
    }
    let word = text::ascii_lower(u);
    reveal_strlit("inf");
    reveal_strlit("infinity");
    reveal_strlit("nan");
    assert(word[0] == u[0]);
    assert forall|k: int| 0 <= k < s.len() implies chars::is_digit(#[trigger] s[k]) || s[k] == '.'
        || s[k] == '-' by {
        if d.nanos < 0 {
            if k > 0 {
                assert(s[k] == u[k - 1]);
            }
        } else {
            assert(s[k] == u[k]);
        }
    }
}

proof fn lemma_units(places: nat)
    requires
        1 <= places <= 9,
    ensures
        ({
            let unit = decimal::ten_to((9 - places) as nat);
            let shown = decimal::ten_to(places);
            1 <= unit <= 100_000_000 && 10 <= shown <= 1_000_000_000 && unit * shown
                == 1_000_000_000
        }),
{
    assert(decimal::ten_to(0) == 1);
    assert(decimal::ten_to(1) == 10);
    assert(decimal::ten_to(2) == 100);
    assert(decimal::ten_to(3) == 1_000);
    assert(decimal::ten_to(4) == 10_000);
    assert(decimal::ten_to(5) == 100_000);
    assert(decimal::ten_to(6) == 1_000_000);
    assert(decimal::ten_to(7) == 10_000_000);
    assert(decimal::ten_to(8) == 100_000_000);
    assert(decimal::ten_to(9) == 1_000_000_000);
    let unit = decimal::ten_to((9 - places) as nat);
    let shown = decimal::ten_to(places);
    assert(unit * shown == 1_000_000_000) by (nonlinear_arith)
        requires
            (unit == 1 && shown == 1_000_000_000) || (unit == 10 && shown == 100_000_000) || (unit
                == 100 && shown == 10_000_000) || (unit == 1_000 && shown == 1_000_000) || (unit
                == 10_000 && shown == 100_000) || (unit == 100_000 && shown == 10_000) || (unit
                == 1_000_000 && shown == 1_000) || (unit == 10_000_000 && shown == 100) || (unit
                == 100_000_000 && shown == 10),
    ;
}

// The parts of a playlist.

/// Whether the texts of DRM data have no line breaks.
pub open spec fn plain_drm(d: ManifestDrmInfo) -> bool {
    &&& one_line(d.default_kid@)
    &&& d.fairplay_key_uri matches Some(t) ==> one_line(t@)
    &&& d.widevine_pssh matches Some(t) ==> one_line(t@)
    &&& d.playready_pssh matches Some(t) ==> one_line(t@)
    &&& d.clearkey_pssh matches Some(t) ==> one_line(t@)
}

/// Whether the texts of a manifest can stand in a playlist: none has a line break, the reference
/// of the initialization segment has no quotation mark, and those of segments are no tags and
/// have no white space at their ends.
pub open spec fn plain_state(s: ManifestState) -> bool {
    &&& one_line(s.base_url@)
    &&& s.init_segment matches Some(init) ==> one_line(init.uri@) && !init.uri@.contains('"')
    &&& s.drm_info matches Some(d) ==> plain_drm(d)
    &&& forall|k: int|
        0 <= k < s.rotation_drm_info@.len() ==> plain_drm(#[trigger] s.rotation_drm_info@[k])
    &&& forall|k: int| 0 <= k < s.parts@.len() ==> one_line((#[trigger] s.parts@[k]).uri@)
    &&& forall|k: int|
        0 <= k < s.ad_breaks@.len() ==> match (#[trigger] s.ad_breaks@[k]).scte35_cmd {
            Some(t) => one_line(t@),
            None => true,
        }
    &&& forall|k: int| 0 <= k < s.segments@.len() ==> plain_segment(#[trigger] s.segments@[k])
}

/// Whether a segment can be read back: its reference is a line of its own, and its duration is
/// far from infinity.
pub open spec fn plain_segment(seg: SegmentInfo) -> bool {
    let u = seg.uri@;
    &&& one_line(u)
    &&& u.len() > 0
    &&& u[0] != '#'
    &&& !chars::is_space(u[0])
    &&& !chars::is_space(u[u.len() - 1])
    &&& seg.duration.size() < 100_000_000_000_000_000_000_000_000_000_000_000_000
}

proof fn lemma_line_both(a: Seq<char>, b: Seq<char>)
    requires
        one_line(a),
        one_line(b),
    ensures
        one_line(a + b),
{
    assert forall|i: int| 0 <= i < (a + b).len() implies #[trigger] (a + b)[i] != '\n' by {
        if i < a.len() {
            assert((a + b)[i] == a[i]);
        } else {
            assert((a + b)[i] == b[i - a.len()]);
        }
    }
}

proof fn lemma_dec_line(n: nat)
    ensures
        one_line(text::dec(n)),
{
    timeline::lemma_dec(n);
    let s = text::dec(n);
    assert forall|i: int| 0 <= i < s.len() implies #[trigger] s[i] != '\n' by {
        assert(chars::is_digit(s[i]));
    }
}

proof fn lemma_padded_line(n: nat, width: nat)
    ensures
        one_line(text::dec_padded(n, width)),
{
    lemma_dec_line(n);
    if text::dec(n).len() < width {
        let zeros = Seq::new((width - text::dec(n).len()) as nat, |i: int| '0');
        assert(one_line(zeros));
        lemma_line_both(zeros, text::dec(n));
    }
}

proof fn lemma_fixed_line(d: Decimal, places: nat)
    requires
        places <= 9,
    ensures
        one_line(d.fixed(places)),
{
    let unit = decimal::ten_to((9 - places) as nat);
    let scaled = decimal::rounded(d.size(), unit);
    let w = scaled / decimal::ten_to(places);
    let f = scaled % decimal::ten_to(places);
    reveal_strlit("-");
    reveal_strlit(".");
    reveal_strlit("inf");
    lemma_dec_line(w);
    lemma_padded_line(f, places);
    assert(one_line(d.sign()));
    assert(one_line("."@));
    assert(one_line("inf"@));
    lemma_line_both(d.sign(), "inf"@);
    lemma_line_both(d.sign(), text::dec(w));
    lemma_line_both(d.sign() + text::dec(w), "."@);
    lemma_line_both(d.sign() + text::dec(w) + "."@, text::dec_padded(f, places));
}

/// A line that starts with a tag name, and whatever follows it.
proof fn lemma_tag_text(name: Seq<char>, rest: Seq<char>, t: Seq<char>)
    requires
        tag_line(name),
        name.len() >= 9 || rest.len() == 0,
        one_line(rest),
        t == name + rest + seq!['\n'],
    ensures
        tags(t),
{
    lemma_line_both(name, rest);
    let line = name + rest;
    assert(line[0] == name[0]);
    if name.len() >= 9 {
        assert(line[4] == name[4] && line[7] == name[7] && line[8] == name[8]);
    } else {
        assert(line =~= name);
    }
    lemma_tags_one(line, t);
}

#[verifier::rlimit(60)]
proof fn lemma_key_tag(method: Seq<char>, uri: Seq<char>, kid: Seq<char>, format: Seq<char>)
    requires
        one_line(method),
        one_line(uri),
        one_line(kid),
        one_line(format),
    ensures
        tags(hls::key_tag("#EXT-X-KEY"@, method, uri, kid, format)),
{
    let t = hls::key_tag("#EXT-X-KEY"@, method, uri, kid, format);
    reveal_strlit("#EXT-X-KEY");
    reveal_strlit(":METHOD=");
    reveal_strlit(",URI=\"");
    reveal_strlit("\",KEYID=0x");
    reveal_strlit(",KEYFORMAT=\"");
    reveal_strlit("\",KEYFORMATVERSIONS=\"1\"\n");
    let end = "\",KEYFORMATVERSIONS=\"1\"\n"@;
    let last = end.take(end.len() - 1);
    assert(end =~= last + seq!['\n']);
    let a = ":METHOD="@ + method;
    let b = ",URI=\""@ + uri;
    let c = "\",KEYID=0x"@ + kid;
    let d = ",KEYFORMAT=\""@ + format;
    lemma_line_both(":METHOD="@, method);
    lemma_line_both(",URI=\""@, uri);
    lemma_line_both("\",KEYID=0x"@, kid);
    lemma_line_both(",KEYFORMAT=\""@, format);
    lemma_line_both(a, b);
    lemma_line_both(a + b, c);
    lemma_line_both(a + b + c, d);
    lemma_line_both(a + b + c + d, last);
    let rest = a + b + c + d + last;
    assert(t =~= "#EXT-X-KEY"@ + rest + seq!['\n']);
    lemma_tag_text("#EXT-X-KEY"@, rest, t);
}

#[verifier::rlimit(60)]
proof fn lemma_pssh_tag(d: ManifestDrmInfo, pssh: Option<String>, format: Seq<char>)
    requires
        plain_drm(d),
        pssh matches Some(t) ==> one_line(t@),
        one_line(format),
    ensures
        tags(hls::pssh_tag("#EXT-X-KEY"@, d, pssh, format)),
{
    lemma_tags_none();
    lemma_methods(d);
    if let Some(p) = pssh {
        reveal_strlit("data:text/plain;base64,");
        lemma_line_both("data:text/plain;base64,"@, p@);
        lemma_key_tag(
            d.encryption_scheme.hls_method(),
            "data:text/plain;base64,"@ + p@,
            d.default_kid@,
            format,
        );
    }
}

proof fn lemma_methods(d: ManifestDrmInfo)
    ensures
        one_line(d.encryption_scheme.hls_method()),
{
    reveal_strlit("SAMPLE-AES");
    reveal_strlit("SAMPLE-AES-CTR");
    reveal_strlit("NONE");
}

#[verifier::rlimit(60)]
proof fn lemma_drm_keys(d: ManifestDrmInfo)
    requires
        plain_drm(d),
    ensures
        tags(hls::drm_keys(d)),
{
    let w = "urn:uuid:edef8ba9-79d6-4ace-a3c8-27dcd51d21ed"@;
    let p = "urn:uuid:9a04f079-9840-4286-ab92-e65be0885f95"@;
    let c = "urn:uuid:e2719d58-a985-b3c9-781a-b030af78d30e"@;
    reveal_strlit("urn:uuid:edef8ba9-79d6-4ace-a3c8-27dcd51d21ed");
    reveal_strlit("urn:uuid:9a04f079-9840-4286-ab92-e65be0885f95");
    reveal_strlit("urn:uuid:e2719d58-a985-b3c9-781a-b030af78d30e");
    reveal_strlit("com.apple.streamingkeydelivery");
    lemma_tags_none();
    lemma_methods(d);
    lemma_pssh_tag(d, d.widevine_pssh, w);
    lemma_pssh_tag(d, d.playready_pssh, p);
    lemma_pssh_tag(d, d.clearkey_pssh, c);
    let f = match d.fairplay_key_uri {
        None => Seq::empty(),
        Some(uri) => hls::key_tag(
            "#EXT-X-KEY"@,
            d.encryption_scheme.hls_method(),
            uri@,
            d.default_kid@,
            "com.apple.streamingkeydelivery"@,
        ),
    };
    if let Some(uri) = d.fairplay_key_uri {
        lemma_key_tag(
            d.encryption_scheme.hls_method(),
            uri@,
            d.default_kid@,
            "com.apple.streamingkeydelivery"@,
        );
    }
    let tag = "#EXT-X-KEY"@;
    lemma_tags_both(f, hls::pssh_tag(tag, d, d.widevine_pssh, w));
    lemma_tags_both(
        f + hls::pssh_tag(tag, d, d.widevine_pssh, w),
        hls::pssh_tag(tag, d, d.playready_pssh, p),
    );
    lemma_tags_both(
        f + hls::pssh_tag(tag, d, d.widevine_pssh, w) + hls::pssh_tag(tag, d, d.playready_pssh, p),
        hls::pssh_tag(tag, d, d.clearkey_pssh, c),
    );
}

#[verifier::rlimit(60)]
proof fn lemma_keys_text(s: ManifestState, d: ManifestDrmInfo)
    requires
        one_line(s.base_url@),
        plain_drm(d),
    ensures
        tags(hls::keys_text(s, d)),
{
    if s.container_format is Ts {
        let uri = s.base_url@ + "key"@;
        reveal_strlit("key");
        reveal_strlit("#EXT-X-KEY:METHOD=AES-128,URI=\"");
        reveal_strlit("\"\n");
        lemma_line_both(s.base_url@, "key"@);
        let name = "#EXT-X-KEY:METHOD=AES-128,URI=\""@;
        let rest = uri + seq!['"'];
        lemma_line_both(uri, seq!['"']);
        assert("\"\n"@ =~= seq!['"', '\n']);
        assert(hls::ts_key(uri) =~= name + rest + seq!['\n']);
        lemma_tag_text(name, rest, hls::ts_key(uri));
    } else {
        lemma_drm_keys(d);
    }
}

#[verifier::rlimit(60)]
proof fn lemma_first_keys(s: ManifestState)
    requires
        plain_state(s),
    ensures
        tags(hls::first_keys(s)),
{
    lemma_tags_none();
    reveal_strlit("#EXT-X-KEY:METHOD=NONE\n");
    let t = "#EXT-X-KEY:METHOD=NONE\n"@;
    let name = t.take(t.len() - 1);
    assert(t =~= name + Seq::<char>::empty() + seq!['\n']);
    lemma_tag_text(name, Seq::empty(), t);
    if let Some(d) = s.drm_info {
        lemma_keys_text(s, d);
    }
}

#[verifier::rlimit(60)]
proof fn lemma_date_line(t: Decimal)
    ensures
        one_line(hls::date_text(t)),
{
    let secs = t.in_ticks(1);
    let day = secs % 86400;
    reveal_strlit("1970-01-");
    reveal_strlit("T");
    reveal_strlit(":");
    reveal_strlit(".");
    reveal_strlit("Z");
    let a = text::dec_padded(secs / 86400 + 1, 2);
    let b = text::dec_padded(day / 3600, 2);
    let c = text::dec_padded((day / 60) % 60, 2);
    let d = text::dec_padded(day % 60, 2);
    let e = text::dec_padded(hls::millis_of(t), 3);
    lemma_padded_line(secs / 86400 + 1, 2);
    lemma_padded_line(day / 3600, 2);
    lemma_padded_line((day / 60) % 60, 2);
    lemma_padded_line(day % 60, 2);
    lemma_padded_line(hls::millis_of(t), 3);
    lemma_line_both("1970-01-"@, a);
    lemma_line_both("1970-01-"@ + a, "T"@);
    lemma_line_both("1970-01-"@ + a + "T"@, b);
    lemma_line_both("1970-01-"@ + a + "T"@ + b, ":"@);
    lemma_line_both("1970-01-"@ + a + "T"@ + b + ":"@, c);
    lemma_line_both("1970-01-"@ + a + "T"@ + b + ":"@ + c, ":"@);
    lemma_line_both("1970-01-"@ + a + "T"@ + b + ":"@ + c + ":"@, d);
    lemma_line_both("1970-01-"@ + a + "T"@ + b + ":"@ + c + ":"@ + d, "."@);
    lemma_line_both("1970-01-"@ + a + "T"@ + b + ":"@ + c + ":"@ + d + "."@, e);
    lemma_line_both("1970-01-"@ + a + "T"@ + b + ":"@ + c + ":"@ + d + "."@ + e, "Z"@);
}

proof fn lemma_hex_line(bytes: Seq<u8>, n: nat)
    requires
        n <= bytes.len(),
    ensures
        one_line(hls::hex_text(bytes, n)),
    decreases n,
{
    if n > 0 {
        lemma_hex_line(bytes, (n - 1) as nat);
        lemma_line_both(hls::hex_text(bytes, (n - 1) as nat), text::hex2(bytes[n - 1]));
    }
}

#[verifier::rlimit(60)]
proof fn lemma_break_line(b: AdBreakInfo)
    requires
        b.scte35_cmd matches Some(t) ==> one_line(t@),
    ensures
        tags(hls::break_line(b)),
{
    reveal_strlit("#EXT-X-DATERANGE:ID=\"splice-");
    reveal_strlit("\",START-DATE=\"");
    reveal_strlit("\"");
    reveal_strlit(",PLANNED-DURATION=");
    reveal_strlit(",SCTE35-CMD=0x");
    reveal_strlit("\n");
    let name = "#EXT-X-DATERANGE:ID=\"splice-"@;
    let id = text::dec(b.id as nat);
    let date = hls::date_text(b.presentation_time);
    let d = match b.duration {
        Some(d) => ",PLANNED-DURATION="@ + d.fixed(3),
        None => Seq::empty(),
    };
    let c = match b.scte35_cmd {
        Some(cmd) => ",SCTE35-CMD=0x"@ + hls::hex_of_base64(cmd@),
        None => Seq::empty(),
    };
    lemma_dec_line(b.id as nat);
    lemma_date_line(b.presentation_time);
    if let Some(x) = b.duration {
        lemma_fixed_line(x, 3);
        lemma_line_both(",PLANNED-DURATION="@, x.fixed(3));
    }
    if let Some(cmd) = b.scte35_cmd {
        if let Some(bytes) = b64::decoded(cmd@) {
            lemma_hex_line(bytes, bytes.len());
        }
        lemma_line_both(",SCTE35-CMD=0x"@, hls::hex_of_base64(cmd@));
    }
    lemma_line_both(id, "\",START-DATE=\""@);
    lemma_line_both(id + "\",START-DATE=\""@, date);
    lemma_line_both(id + "\",START-DATE=\""@ + date, "\""@);
    lemma_line_both(id + "\",START-DATE=\""@ + date + "\""@, d);
    lemma_line_both(id + "\",START-DATE=\""@ + date + "\""@ + d, c);
    let rest = id + "\",START-DATE=\""@ + date + "\""@ + d + c;
    assert("\n"@ =~= seq!['\n']);
    assert(hls::break_line(b) =~= name + rest + seq!['\n']);
    lemma_tag_text(name, rest, hls::break_line(b));
}

proof fn lemma_break_lines(list: Seq<AdBreakInfo>, number: u32, n: nat)
    requires
        n <= list.len(),
        forall|k: int|
            0 <= k < list.len() ==> match (#[trigger] list[k]).scte35_cmd {
                Some(t) => one_line(t@),
                None => true,
            },
    ensures
        tags(hls::break_lines(list, number, n)),
    decreases n,
{
    lemma_tags_none();
    if n > 0 {
        lemma_break_lines(list, number, (n - 1) as nat);
        let b = list[n - 1];
        lemma_break_line(b);
        lemma_tags_both(hls::break_lines(list, number, (n - 1) as nat), hls::break_line(b));
    }
}

#[verifier::rlimit(60)]
proof fn lemma_part_line(p: PartInfo)
    requires
        one_line(p.uri@),
    ensures
        tags(hls::part_line(p)),
{
    reveal_strlit("#EXT-X-PART:DURATION=");
    reveal_strlit(",URI=\"");
    reveal_strlit("\"");
    reveal_strlit(",INDEPENDENT=YES");
    reveal_strlit("\n");
    let name = "#EXT-X-PART:DURATION="@;
    let d = p.duration.fixed(5);
    let i = if p.independent {
        ",INDEPENDENT=YES"@
    } else {
        Seq::empty()
    };
    lemma_fixed_line(p.duration, 5);
    lemma_line_both(d, ",URI=\""@);
    lemma_line_both(d + ",URI=\""@, p.uri@);
    lemma_line_both(d + ",URI=\""@ + p.uri@, "\""@);
    lemma_line_both(d + ",URI=\""@ + p.uri@ + "\""@, i);
    let rest = d + ",URI=\""@ + p.uri@ + "\""@ + i;
    assert("\n"@ =~= seq!['\n']);
    assert(hls::part_line(p) =~= name + rest + seq!['\n']);
    lemma_tag_text(name, rest, hls::part_line(p));
}

proof fn lemma_part_lines(list: Seq<PartInfo>, number: u32, n: nat)
    requires
        n <= list.len(),
        forall|k: int| 0 <= k < list.len() ==> one_line((#[trigger] list[k]).uri@),
    ensures
        tags(hls::part_lines(list, number, n)),
    decreases n,
{
    lemma_tags_none();
    if n > 0 {
        lemma_part_lines(list, number, (n - 1) as nat);
        let p = list[n - 1];
        lemma_part_line(p);
        lemma_tags_both(hls::part_lines(list, number, (n - 1) as nat), hls::part_line(p));
    }
}

/// Whether each of a list of items is one of another list.
spec fn drawn_from<T>(some: Seq<T>, all: Seq<T>) -> bool {
    forall|k: int| 0 <= k < some.len() ==> all.contains(#[trigger] some[k])
}

proof fn lemma_placed_drawn<T: InSegment>(items: Seq<T>, first: u32, last: u32, n: nat)
    requires
        n <= items.len(),
    ensures
        drawn_from(types::placed_between(items, first, last, n), items),
    decreases n,
{
    if n > 0 {
        lemma_placed_drawn(items, first, last, (n - 1) as nat);
        assert(items.contains(items[n - 1]));
    }
}

/// What is shown of a list is on the list.
proof fn lemma_shown_drawn<T: InSegment>(s: ManifestState, items: Seq<T>)
    ensures
        drawn_from(s.shown_items(items), items),
{
    let shown = s.shown_segments();
    if shown.len() > 0 {
        lemma_placed_drawn(items, shown[0].number, shown.last().number, items.len());
    }
    assert forall|k: int| 0 <= k < items.len() implies items.contains(#[trigger] items[k]) by {}
}

/// The tags of a segment.
#[verifier::rlimit(60)]
proof fn lemma_segment_tags(s: ManifestState, seg: SegmentInfo, last: Option<u32>)
    requires
        plain_state(s),
    ensures
        tags(
            hls::lead_end_keys(s, seg) + hls::rotation_keys(s, seg, last) + hls::segment_breaks(
                s,
                seg,
            ) + hls::segment_parts(s, seg),
        ),
{
    lemma_tags_none();
    if let Some(d) = s.drm_info {
        lemma_keys_text(s, d);
    }
    if hls::rotates(s, seg, last) {
        let n = s.rotation_drm_info@.len() as int;
        let k = seg.key_period->0 as int % n;
        assert(0 <= k < n) by (nonlinear_arith)
            requires
                n > 0,
                k == seg.key_period->0 as int % n,
        ;
        assert(plain_drm(s.rotation_drm_info@[k]));
        lemma_keys_text(s, s.rotation_drm_info@[k]);
    }
    let breaks = s.shown_items(s.ad_breaks@);
    lemma_shown_drawn(s, s.ad_breaks@);
    assert forall|k: int| 0 <= k < breaks.len() implies match (#[trigger] breaks[k]).scte35_cmd {
        Some(t) => one_line(t@),
        None => true,
    } by {
        assert(s.ad_breaks@.contains(breaks[k]));
    }
    lemma_break_lines(breaks, seg.number, breaks.len());
    let parts = s.shown_items(s.parts@);
    lemma_shown_drawn(s, s.parts@);
    assert forall|k: int| 0 <= k < parts.len() implies one_line((#[trigger] parts[k]).uri@) by {
        assert(s.parts@.contains(parts[k]));
    }
    lemma_part_lines(parts, seg.number, parts.len());
    lemma_tags_both(hls::lead_end_keys(s, seg), hls::rotation_keys(s, seg, last));
    lemma_tags_both(
        hls::lead_end_keys(s, seg) + hls::rotation_keys(s, seg, last),
        hls::segment_breaks(s, seg),
    );
    lemma_tags_both(
        hls::lead_end_keys(s, seg) + hls::rotation_keys(s, seg, last) + hls::segment_breaks(s, seg),
        hls::segment_parts(s, seg),
    );
}

/// The line with the duration of a segment.
pub open spec fn duration_line(d: Decimal) -> Seq<char> {
    "#EXTINF:"@ + d.fixed(6) + ","@
}

/// The lines of a segment: tags, its duration and its reference.
#[verifier::rlimit(60)]
proof fn lemma_segment_lines(s: ManifestState, seg: SegmentInfo, last: Option<u32>) -> (lines: Seq<
    Seq<char>,
>)
    requires
        plain_state(s),
        plain_segment(seg),
    ensures
        is_lines(
            hls::segment_lines(s, seg, last),
            lines + seq![duration_line(seg.duration), seg.uri@],
        ),
        forall|k: int| 0 <= k < lines.len() ==> tag_line(#[trigger] lines[k]),
{
    let t = hls::lead_end_keys(s, seg) + hls::rotation_keys(s, seg, last) + hls::segment_breaks(
        s,
        seg,
    ) + hls::segment_parts(s, seg);
    lemma_segment_tags(s, seg, last);
    let lines = choose|lines: Seq<Seq<char>>| #[trigger] tag_lines(t, lines);
    let line = duration_line(seg.duration);
    reveal_strlit("#EXTINF:");
    reveal_strlit(",");
    reveal_strlit(",\n");
    reveal_strlit("\n");
    lemma_fixed_line(seg.duration, 6);
    lemma_line_both("#EXTINF:"@, seg.duration.fixed(6));
    lemma_line_both("#EXTINF:"@ + seg.duration.fixed(6), ","@);
    lemma_one_line(line);
    lemma_one_line(seg.uri@);
    lemma_lines_both(line + seq!['\n'], seq![line], seg.uri@ + seq!['\n'], seq![seg.uri@]);
    let two = seq![line] + seq![seg.uri@];
    assert(two =~= seq![line, seg.uri@]);
    let u = line + seq!['\n'] + (seg.uri@ + seq!['\n']);
    lemma_lines_both(t, lines, u, two);
    assert(",\n"@ =~= seq![',', '\n']);
    assert(hls::segment_lines(s, seg, last) =~= t + u);
    lines
}

pub proof fn lemma_find_at(s: Seq<char>, p: Seq<char>, i: int, n: int)
    requires
        0 <= i <= n <= s.len(),
        chars::stands_at(s, p, n),
        forall|k: int| i <= k < n ==> !(#[trigger] chars::stands_at(s, p, k)),
    ensures
        chars::find_from(s, p, i) == Some(n),
    decreases n - i,
{
    if i < n {
        lemma_find_at(s, p, i + 1, n);
    }
}

/// The line of the initialization segment is read.
#[verifier::rlimit(60)]
proof fn lemma_map_step(p: PlaylistView, base: UrlView, uri: Seq<char>)
    requires
        !uri.contains('"'),
    ensures
        ({
            let line = "#EXT-X-MAP:URI=\""@ + uri + "\""@;
            p.step(base, chars::trimmed(line)) matches Ok(q) ==> {
                &&& Ok::<Seq<char>, ErrorView>(q.init->0) == hls_input::resolved(base, uri)
                &&& q == (PlaylistView { init: q.init, ..p })
                &&& q.init is Some
            }
        }),
{
    reveal_strlit("#EXT-X-MAP:URI=\"");
    reveal_strlit("#EXT-X-MAP:");
    reveal_strlit("\"");
    reveal_strlit("URI");
    reveal_strlit("=\"");
    let line = "#EXT-X-MAP:URI=\""@ + uri + "\""@;
    let search = "URI"@ + "=\""@;
    assert(chars::trimmed(line) == line);
    assert(line.subrange(0, 11) =~= "#EXT-X-MAP:"@);
    assert(line.subrange(11, 16) =~= search);
    assert forall|k: int| 0 <= k < 11 implies !(#[trigger] chars::stands_at(line, search, k)) by {
        if chars::stands_at(line, search, k) {
            assert(line.subrange(k, k + 5)[0] == line[k]);
        }
    }
    lemma_find_at(line, search, 0, 11);
    let end = 16 + uri.len() as int;
    assert forall|k: int| 16 <= k < end implies #[trigger] line[k] != '"' by {
        assert(line[k] == uri[k - 16]);
    }
    lemma_char_at(line, '"', 16, end);
    assert(line.subrange(16, end) =~= uri);
    assert(hls_input::quoted(line, "URI"@) == Some(uri));
}

/// The line with the duration of a segment is read.
#[verifier::rlimit(60)]
proof fn lemma_duration_step(p: PlaylistView, base: UrlView, d: Decimal)
    requires
        d.size() < 100_000_000_000_000_000_000_000_000_000_000_000_000,
    ensures
        p.step(base, chars::trimmed(duration_line(d))) == Ok::<PlaylistView, ErrorView>(
            PlaylistView { pending: decimal::decimal_of(d.fixed(6)), ..p },
        ),
        decimal::decimal_of(d.fixed(6)) is Some,
{
    let line = duration_line(d);
    let f = d.fixed(6);
    written_decimal_is_read(d, 6);
    reveal_strlit("#EXTINF:");
    reveal_strlit(",");
    reveal_strlit("#EXT-X-MAP:");
    reveal_strlit("#EXT-X-KEY:");
    reveal_strlit("#EXT-X-DATERANGE:");
    reveal_strlit("#EXT-X-PART-INF:");
    reveal_strlit("#EXT-X-PART:");
    reveal_strlit("#EXT-X-SERVER-CONTROL:");
    assert(chars::trimmed(line) == line);
    assert(line.subrange(0, 8) =~= "#EXTINF:"@);
    assert(line[4] == 'I');
    assert(!chars::starts(line, "#EXT-X-MAP:"@)) by {
        if chars::starts(line, "#EXT-X-MAP:"@) {
            assert(line.subrange(0, 11)[4] == '-');
        }
    }
    assert(!chars::starts(line, "#EXT-X-KEY:"@)) by {
        if chars::starts(line, "#EXT-X-KEY:"@) {
            assert(line.subrange(0, 11)[4] == '-');
        }
    }
    assert(!chars::starts(line, "#EXT-X-DATERANGE:"@)) by {
        if chars::starts(line, "#EXT-X-DATERANGE:"@) {
            assert(line.subrange(0, 17)[4] == '-');
        }
    }
    assert(!chars::starts(line, "#EXT-X-PART-INF:"@)) by {
        if chars::starts(line, "#EXT-X-PART-INF:"@) {
            assert(line.subrange(0, 16)[4] == '-');
        }
    }
    assert(!chars::starts(line, "#EXT-X-PART:"@)) by {
        if chars::starts(line, "#EXT-X-PART:"@) {
            assert(line.subrange(0, 12)[4] == '-');
        }
    }
    assert(!chars::starts(line, "#EXT-X-SERVER-CONTROL:"@)) by {
        if chars::starts(line, "#EXT-X-SERVER-CONTROL:"@) {
            assert(line.subrange(0, 22)[4] == '-');
        }
    }
    let rest = line.subrange(8, line.len() as int);
    assert(rest =~= f + ","@);
    assert forall|k: int| 0 <= k < f.len() implies #[trigger] rest[k] != ',' by {
        assert(rest[k] == f[k]);
    }
    lemma_char_at(rest, ',', 0, f.len() as int);
    assert(rest.subrange(0, f.len() as int) =~= f);
}

/// The line with the reference of a segment is read.
#[verifier::rlimit(60)]
proof fn lemma_segment_step(p: PlaylistView, base: UrlView, uri: Seq<char>)
    requires
        uri.len() > 0,
        uri[0] != '#',
        !chars::is_space(uri[0]),
        !chars::is_space(uri[uri.len() - 1]),
        p.pending is Some,
    ensures
        p.step(base, chars::trimmed(uri)) matches Ok(q) ==> {
            &&& q.pending is None
            &&& q.init == p.init
            &&& q.live == p.live
            &&& q.durations == p.durations.push(p.pending->0)
            &&& q.urls.len() == p.urls.len() + 1
            &&& q.urls == p.urls.push(q.urls.last())
            &&& Ok::<Seq<char>, ErrorView>(q.urls.last()) == hls_input::resolved(base, uri)
        },
{
    assert(chars::trimmed(uri) == uri);
    reveal_strlit("#EXTINF:");
    reveal_strlit("#EXT-X-MAP:");
    reveal_strlit("#EXT-X-KEY:");
    reveal_strlit("#EXT-X-DATERANGE:");
    reveal_strlit("#EXT-X-PART-INF:");
    reveal_strlit("#EXT-X-PART:");
    reveal_strlit("#EXT-X-SERVER-CONTROL:");
    reveal_strlit("#EXT-X-ENDLIST");
    lemma_other_start(uri, "#EXT-X-MAP:"@);
    lemma_other_start(uri, "#EXT-X-KEY:"@);
    lemma_other_start(uri, "#EXT-X-DATERANGE:"@);
    lemma_other_start(uri, "#EXT-X-PART-INF:"@);
    lemma_other_start(uri, "#EXT-X-PART:"@);
    lemma_other_start(uri, "#EXT-X-SERVER-CONTROL:"@);
    lemma_other_start(uri, "#EXTINF:"@);
    lemma_other_start(uri, "#EXT-X-ENDLIST"@);
}

pub proof fn lemma_other_start(s: Seq<char>, p: Seq<char>)
    requires
        s.len() > 0,
        p.len() > 0,
        s[0] != p[0],
    ensures
        !chars::starts(s, p),
{
    if chars::starts(s, p) {
        assert(s.subrange(0, p.len() as int)[0] == p[0]);
    }
}

/// Whether what was read has the given segments, from the first to the last: the resolved
/// reference of each, and its duration to within half of a millionth.
pub open spec fn segments_read(
    base: UrlView,
    urls: Seq<Seq<char>>,
    durations: Seq<Decimal>,
    shown: Seq<SegmentInfo>,
) -> bool {
    &&& urls.len() == shown.len()
    &&& durations.len() == shown.len()
    &&& forall|k: int|
        0 <= k < shown.len() ==> Ok::<Seq<char>, ErrorView>(#[trigger] urls[k])
            == hls_input::resolved(base, shown[k].uri@)
    &&& forall|k: int|
        0 <= k < shown.len() ==> -1000 <= 2 * ((#[trigger] durations[k]).nanos
            - shown[k].duration.nanos) <= 1000
}

/// The lines of the first `n` segments.
proof fn lemma_all_lines(s: ManifestState, shown: Seq<SegmentInfo>, n: nat) -> (lines: Seq<
    Seq<Seq<char>>,
>)
    requires
        plain_state(s),
        n <= shown.len(),
        forall|k: int| 0 <= k < shown.len() ==> plain_segment(#[trigger] shown[k]),
    ensures
        lines.len() == n,
        forall|k: int, j: int|
            0 <= k < n && 0 <= j < lines[k].len() ==> tag_line(#[trigger] lines[k][j]),
        is_lines(hls::all_segment_lines(s, shown, n), block_lines(shown, lines, n)),
    decreases n,
{
    if n == 0 {
        assert(is_lines(Seq::<char>::empty(), Seq::<Seq<char>>::empty()));
        Seq::empty()
    } else {
        let m = (n - 1) as nat;
        let before = lemma_all_lines(s, shown, m);
        let seg = shown[m as int];
        let last = hls::last_period(s, shown, m);
        let more = lemma_segment_lines(s, seg, last);
        let lines = before.push(more);
        let two = seq![duration_line(seg.duration), seg.uri@];
        lemma_blocks_same(shown, before, lines, m);
        lemma_lines_both(
            hls::all_segment_lines(s, shown, m),
            block_lines(shown, before, m),
            hls::segment_lines(s, seg, last),
            more + two,
        );
        assert(block_lines(shown, lines, n) =~= block_lines(shown, before, m) + (more + two));
        assert forall|k: int, j: int|
            0 <= k < n && 0 <= j < lines[k].len() implies tag_line(#[trigger] lines[k][j]) by {
            if k < m {
                assert(lines[k] == before[k]);
                assert(tag_line(before[k][j]));
            } else {
                assert(lines[k] == more);
            }
        }
        lines
    }
}

/// The lines of the first `n` segments, each with the given tags in front.
spec fn block_lines(shown: Seq<SegmentInfo>, lines: Seq<Seq<Seq<char>>>, n: nat) -> Seq<Seq<char>>
    decreases n,
{
    if n == 0 {
        Seq::empty()
    } else {
        block_lines(shown, lines, (n - 1) as nat) + lines[n - 1] + seq![
            duration_line(shown[n - 1].duration),
            shown[n - 1].uri@,
        ]
    }
}

proof fn lemma_blocks_same(
    shown: Seq<SegmentInfo>,
    a: Seq<Seq<Seq<char>>>,
    b: Seq<Seq<Seq<char>>>,
    n: nat,
)
    requires
        n <= a.len(),
        n <= b.len(),
        forall|k: int| 0 <= k < n ==> a[k] == b[k],
    ensures
        block_lines(shown, a, n) == block_lines(shown, b, n),
    decreases n,
{
    if n > 0 {
        lemma_blocks_same(shown, a, b, (n - 1) as nat);
    }
}

proof fn lemma_blocks_grow(
    shown: Seq<SegmentInfo>,
    lines: Seq<Seq<Seq<char>>>,
    m: nat,
    n: nat,
)
    requires
        m <= n,
    ensures
        block_lines(shown, lines, m).is_prefix_of(block_lines(shown, lines, n)),
    decreases n,
{
    let a = block_lines(shown, lines, m);
    if m == n {
        assert(a.take(a.len() as int) =~= a);
    } else {
        lemma_blocks_grow(shown, lines, m, (n - 1) as nat);
        let b = block_lines(shown, lines, (n - 1) as nat);
        assert(block_lines(shown, lines, n).take(a.len() as int) =~= b.take(a.len() as int));
    }
}

/// Reading the lines of one segment.
#[verifier::spinoff_prover]
#[verifier::rlimit(60)]
proof fn lemma_block_read(
    base: UrlView,
    all: Seq<Seq<char>>,
    i: int,
    mine: Seq<Seq<char>>,
    seg: SegmentInfo,
    p: PlaylistView,
) -> (q: PlaylistView)
    requires
        0 <= i,
        i + mine.len() + 2 <= all.len(),
        all.subrange(i, i + mine.len()) == mine,
        all[i + mine.len()] == duration_line(seg.duration),
        all[i + mine.len() + 1] == seg.uri@,
        forall|j: int| 0 <= j < mine.len() ==> tag_line(#[trigger] mine[j]),
        plain_segment(seg),
        p.steps(base, all, i) is Ok,
    ensures
        reads(base, all, i, (i + mine.len() + 2) as int, p, q),
        q.init == p.init,
        q.live == p.live,
        q.urls.len() == p.urls.len() + 1,
        q.urls == p.urls.push(q.urls.last()),
        q.durations.len() == p.durations.len() + 1,
        q.durations == p.durations.push(q.durations.last()),
        Ok::<Seq<char>, ErrorView>(q.urls.last()) == hls_input::resolved(base, seg.uri@),
        -1000 <= 2 * (q.durations.last().nanos - seg.duration.nanos) <= 1000,
{
    let p1 = lemma_tags_read(base, all, i, mine, 0, p);
    let e = i + mine.len();
    lemma_duration_step(p1, base, seg.duration);
    written_decimal_is_read(seg.duration, 6);
    assert(decimal::ten_to(3) == 1000) by {
        reveal_with_fuel(decimal::ten_to, 5);
    }
    let p2 = p1.step(base, chars::trimmed(all[e]))->Ok_0;
    assert(p1.steps(base, all, e) == p2.steps(base, all, e + 1));
    lemma_segment_step(p2, base, seg.uri@);
    let p3 = p2.step(base, chars::trimmed(all[e + 1]))->Ok_0;
    assert(p2.steps(base, all, e + 1) == p3.steps(base, all, e + 2));
    p3
}

/// One more segment was read.
proof fn lemma_one_more_read(
    base: UrlView,
    p: PlaylistView,
    q: PlaylistView,
    shown: Seq<SegmentInfo>,
    n: int,
)
    requires
        0 <= n < shown.len(),
        segments_read(base, p.urls, p.durations, shown.take(n)),
        q.urls.len() == p.urls.len() + 1,
        q.urls == p.urls.push(q.urls.last()),
        q.durations.len() == p.durations.len() + 1,
        q.durations == p.durations.push(q.durations.last()),
        Ok::<Seq<char>, ErrorView>(q.urls.last()) == hls_input::resolved(base, shown[n].uri@),
        -1000 <= 2 * (q.durations.last().nanos - shown[n].duration.nanos) <= 1000,
    ensures
        segments_read(base, q.urls, q.durations, shown.take(n + 1)),
{
    let some = shown.take(n + 1);
    assert forall|k: int| 0 <= k < some.len() implies Ok::<Seq<char>, ErrorView>(
        #[trigger] q.urls[k],
    ) == hls_input::resolved(base, some[k].uri@) by {
        if k < n {
            assert(shown.take(n)[k] == some[k]);
            assert(q.urls[k] == p.urls[k]);
        }
    }
    assert forall|k: int| 0 <= k < some.len() implies -1000 <= 2 * ((#[trigger] q.durations[k]).nanos
        - some[k].duration.nanos) <= 1000 by {
        if k < n {
            assert(shown.take(n)[k] == some[k]);
            assert(q.durations[k] == p.durations[k]);
        }
    }
}

/// Where the lines of a segment stand.
#[verifier::spinoff_prover]
#[verifier::rlimit(60)]
proof fn lemma_block_place(
    all: Seq<Seq<char>>,
    at: int,
    shown: Seq<SegmentInfo>,
    lines: Seq<Seq<Seq<char>>>,
    n: nat,
)
    requires
        0 <= at,
        n < shown.len(),
        lines.len() == shown.len(),
        at + block_lines(shown, lines, shown.len()).len() <= all.len(),
        all.subrange(at, at + block_lines(shown, lines, shown.len()).len()) == block_lines(
            shown,
            lines,
            shown.len(),
        ),
    ensures
        ({
            let i = at + block_lines(shown, lines, n).len();
            let mine = lines[n as int];
            &&& i + mine.len() + 2 <= all.len()
            &&& i + mine.len() + 2 == at + block_lines(shown, lines, n + 1).len()
            &&& all.subrange(i, i + mine.len()) == mine
            &&& all[i + mine.len()] == duration_line(shown[n as int].duration)
            &&& all[i + mine.len() + 1] == shown[n as int].uri@
        }),
{
    let total = block_lines(shown, lines, shown.len());
    let seg = shown[n as int];
    let mine = lines[n as int];
    let before = block_lines(shown, lines, n);
    let after = block_lines(shown, lines, n + 1);
    let i = (at + before.len()) as int;
    let two = seq![duration_line(seg.duration), seg.uri@];
    lemma_blocks_grow(shown, lines, n + 1, shown.len());
    assert(after == before + mine + two);
    assert(total.take(after.len() as int) == after);
    assert forall|k: int| 0 <= k < after.len() implies #[trigger] all[at + k] == after[k] by {
        assert(all.subrange(at, at + total.len())[k] == all[at + k]);
        assert(total.take(after.len() as int)[k] == total[k]);
    }
    assert(all.subrange(i, i + mine.len()) =~= mine) by {
        assert forall|k: int| 0 <= k < mine.len() implies all[i + k] == mine[k] by {
            assert(all[at + (before.len() + k)] == after[before.len() + k]);
        }
    }
    assert(all[at + (before.len() + mine.len())] == after[(before.len() + mine.len()) as int]);
    assert(all[at + (before.len() + mine.len() + 1)] == after[(before.len() + mine.len()
        + 1) as int]);
}

/// Reading the segments from `n` on.
#[verifier::spinoff_prover]
#[verifier::rlimit(60)]
proof fn lemma_blocks_read(
    base: UrlView,
    all: Seq<Seq<char>>,
    at: int,
    shown: Seq<SegmentInfo>,
    lines: Seq<Seq<Seq<char>>>,
    n: nat,
    p: PlaylistView,
) -> (q: PlaylistView)
    requires
        0 <= at,
        n <= shown.len(),
        lines.len() == shown.len(),
        at + block_lines(shown, lines, shown.len()).len() <= all.len(),
        all.subrange(at, at + block_lines(shown, lines, shown.len()).len()) == block_lines(
            shown,
            lines,
            shown.len(),
        ),
        forall|k: int, j: int|
            0 <= k < shown.len() && 0 <= j < lines[k].len() ==> tag_line(#[trigger] lines[k][j]),
        forall|k: int| 0 <= k < shown.len() ==> plain_segment(#[trigger] shown[k]),
        p.steps(base, all, at + block_lines(shown, lines, n).len()) is Ok,
        segments_read(base, p.urls, p.durations, shown.take(n as int)),
    ensures
        reads(
            base,
            all,
            (at + block_lines(shown, lines, n).len()) as int,
            (at + block_lines(shown, lines, shown.len()).len()) as int,
            p,
            q,
        ),
        q.init == p.init,
        q.live == p.live,
        segments_read(base, q.urls, q.durations, shown),
    decreases shown.len() - n,
{
    if n == shown.len() {
        assert(shown.take(n as int) =~= shown);
        p
    } else {
        let seg = shown[n as int];
        let mine = lines[n as int];
        let i = at + block_lines(shown, lines, n).len();
        lemma_block_place(all, at, shown, lines, n);
        assert forall|j: int| 0 <= j < mine.len() implies tag_line(#[trigger] mine[j]) by {
            assert(tag_line(lines[n as int][j]));
        }
        let next = lemma_block_read(base, all, i, mine, seg, p);
        lemma_one_more_read(base, p, next, shown, n as int);
        lemma_blocks_read(base, all, at, shown, lines, n + 1, next)
    }
}

/// The lines of a playlist before the initialization segment are tags.
#[verifier::spinoff_prover]
#[verifier::rlimit(60)]
proof fn lemma_head_tags(s: ManifestState)
    requires
        plain_state(s),
    ensures
        tags(
            hls::playlist_head(s) + hls::type_line(s) + "#EXT-X-INDEPENDENT-SEGMENTS\n"@
                + hls::first_keys(s),
        ),
        tags(hls::playlist_head(s)),
{
    let m = "#EXTM3U\n"@;
    reveal_strlit("#EXTM3U\n");
    lemma_literal_tag(m);
    let v = hls::version_line(s);
    reveal_strlit("#EXT-X-VERSION:9\n");
    reveal_strlit("#EXT-X-VERSION:7\n");
    reveal_strlit("#EXT-X-VERSION:3\n");
    lemma_literal_tag(v);
    let name = "#EXT-X-TARGETDURATION:"@;
    let mid = "\n#EXT-X-MEDIA-SEQUENCE:"@;
    reveal_strlit("#EXT-X-TARGETDURATION:");
    reveal_strlit("\n#EXT-X-MEDIA-SEQUENCE:");
    reveal_strlit("\n");
    let n1 = text::dec(s.target_duration.ceiling());
    let n2 = text::dec(s.shown_sequence() as nat);
    lemma_dec_line(s.target_duration.ceiling());
    lemma_dec_line(s.shown_sequence() as nat);
    let second = mid.skip(1);
    assert(mid =~= seq!['\n'] + second);
    assert("\n"@ =~= seq!['\n']);
    let t1 = name + n1 + seq!['\n'];
    let t2 = second + n2 + seq!['\n'];
    assert(second[0] == '#' && second[4] == '-' && second[7] == 'M' && second[8] == 'E');
    lemma_tag_text(name, n1, t1);
    lemma_tag_text(second, n2, t2);
    let c = hls::control_tag(s.server_control);
    let p = hls::part_target_line(s.part_target_duration);
    lemma_control(s.server_control);
    lemma_part_target(s.part_target_duration);
    lemma_tags_both(m, v);
    lemma_tags_both(m + v, t1);
    lemma_tags_both(m + v + t1, t2);
    lemma_tags_both(m + v + t1 + t2, c);
    lemma_tags_both(m + v + t1 + t2 + c, p);
    let head = hls::playlist_head(s);
    assert(head =~= m + v + t1 + t2 + c + p);
    let y = hls::type_line(s);
    reveal_strlit("#EXT-X-PLAYLIST-TYPE:VOD\n");
    reveal_strlit("#EXT-X-PLAYLIST-TYPE:EVENT\n");
    reveal_strlit("#EXT-X-INDEPENDENT-SEGMENTS\n");
    lemma_tags_none();
    if y.len() > 0 {
        lemma_literal_tag(y);
    } else {
        assert(y =~= Seq::empty());
    }
    let i = "#EXT-X-INDEPENDENT-SEGMENTS\n"@;
    lemma_literal_tag(i);
    lemma_first_keys(s);
    lemma_tags_both(head, y);
    lemma_tags_both(head + y, i);
    lemma_tags_both(head + y + i, hls::first_keys(s));
}

/// A tag with its line break.
proof fn lemma_literal_tag(t: Seq<char>)
    requires
        t.len() > 1,
        t.last() == '\n',
        tag_line(t.drop_last()),
    ensures
        tags(t),
{
    assert(t =~= t.drop_last() + seq!['\n']);
    lemma_tags_one(t.drop_last(), t);
}

#[verifier::rlimit(60)]
proof fn lemma_part_target(target: Option<Decimal>)
    ensures
        tags(hls::part_target_line(target)),
{
    lemma_tags_none();
    if let Some(d) = target {
        reveal_strlit("#EXT-X-PART-INF:PART-TARGET=");
        reveal_strlit("\n");
        assert("\n"@ =~= seq!['\n']);
        lemma_fixed_line(d, 5);
        lemma_tag_text("#EXT-X-PART-INF:PART-TARGET="@, d.fixed(5), hls::part_target_line(target));
    }
}

#[verifier::rlimit(60)]
proof fn lemma_control(control: Option<ServerControl>)
    ensures
        tags(hls::control_tag(control)),
{
    lemma_tags_none();
    if let Some(c) = control {
        let attrs = hls::control_attrs(c);
        if attrs.len() > 0 {
            reveal_strlit("#EXT-X-SERVER-CONTROL:");
            reveal_strlit("\n");
            assert("\n"@ =~= seq!['\n']);
            lemma_control_attrs(c);
            lemma_commas(attrs, attrs.len());
            lemma_tag_text(
                "#EXT-X-SERVER-CONTROL:"@,
                hls::comma_joined(attrs, attrs.len()),
                hls::control_tag(control),
            );
        }
    }
}

proof fn lemma_commas(list: Seq<Seq<char>>, n: nat)
    requires
        n <= list.len(),
        forall|k: int| 0 <= k < list.len() ==> one_line(#[trigger] list[k]),
    ensures
        one_line(hls::comma_joined(list, n)),
    decreases n,
{
    if n > 1 {
        reveal_strlit(",");
        lemma_commas(list, (n - 1) as nat);
        lemma_line_both(hls::comma_joined(list, (n - 1) as nat), ","@);
        lemma_line_both(hls::comma_joined(list, (n - 1) as nat) + ","@, list[n - 1]);
    }
}

#[verifier::rlimit(60)]
proof fn lemma_control_attrs(c: ServerControl)
    ensures
        forall|k: int|
            0 <= k < hls::control_attrs(c).len() ==> one_line(#[trigger] hls::control_attrs(c)[k]),
{
    reveal_strlit("CAN-BLOCK-RELOAD=YES");
    reveal_strlit("PART-HOLD-BACK");
    reveal_strlit("HOLD-BACK");
    reveal_strlit("CAN-SKIP-UNTIL");
    lemma_decimal_attr("PART-HOLD-BACK"@, c.part_hold_back);
    lemma_decimal_attr("HOLD-BACK"@, c.hold_back);
    lemma_decimal_attr("CAN-SKIP-UNTIL"@, c.can_skip_until);
}

proof fn lemma_decimal_attr(name: Seq<char>, value: Option<Decimal>)
    requires
        one_line(name),
    ensures
        forall|k: int|
            0 <= k < hls::decimal_attr(name, value).len() ==> one_line(
                #[trigger] hls::decimal_attr(name, value)[k],
            ),
{
    if let Some(d) = value {
        reveal_strlit("=");
        lemma_fixed_line(d, 5);
        lemma_line_both(name, "="@);
        lemma_line_both(name + "="@, d.fixed(5));
    }
}

/// The line of the initialization segment, where there is one.
spec fn map_lines(s: ManifestState) -> Seq<Seq<char>> {
    match s.init_segment {
        Some(init) => seq!["#EXT-X-MAP:URI=\""@ + init.uri@ + "\""@],
        None => Seq::empty(),
    }
}

/// The line of the end, where there is one.
spec fn end_lines(s: ManifestState) -> Seq<Seq<char>> {
    if s.phase is Complete {
        seq!["#EXT-X-ENDLIST"@]
    } else {
        Seq::empty()
    }
}

#[verifier::rlimit(60)]
proof fn lemma_frame_lines(s: ManifestState)
    requires
        plain_state(s),
    ensures
        is_lines(hls::map_line(s), map_lines(s)),
        is_lines(hls::end_line(s), end_lines(s)),
{
    reveal_strlit("#EXT-X-MAP:URI=\"");
    reveal_strlit("\"\n");
    reveal_strlit("\"");
    reveal_strlit("#EXT-X-ENDLIST\n");
    reveal_strlit("#EXT-X-ENDLIST");
    assert(is_lines(Seq::<char>::empty(), Seq::<Seq<char>>::empty()));
    if let Some(init) = s.init_segment {
        let line = "#EXT-X-MAP:URI=\""@ + init.uri@ + "\""@;
        lemma_line_both("#EXT-X-MAP:URI=\""@, init.uri@);
        lemma_line_both("#EXT-X-MAP:URI=\""@ + init.uri@, "\""@);
        lemma_one_line(line);
        assert("\"\n"@ =~= seq!['"', '\n']);
        assert(hls::map_line(s) =~= line + seq!['\n']);
    }
    if s.phase is Complete {
        lemma_one_line("#EXT-X-ENDLIST"@);
        assert(hls::end_line(s) =~= "#EXT-X-ENDLIST"@ + seq!['\n']);
    }
}

#[verifier::rlimit(60)]
proof fn lemma_end_step(p: PlaylistView, base: UrlView)
    ensures
        p.step(base, chars::trimmed("#EXT-X-ENDLIST"@)) == Ok::<PlaylistView, ErrorView>(
            PlaylistView { live: false, ..p },
        ),
{
    let line = "#EXT-X-ENDLIST"@;
    reveal_strlit("#EXT-X-ENDLIST");
    reveal_strlit("#EXTINF:");
    reveal_strlit("#EXT-X-MAP:");
    reveal_strlit("#EXT-X-KEY:");
    reveal_strlit("#EXT-X-DATERANGE:");
    reveal_strlit("#EXT-X-PART-INF:");
    reveal_strlit("#EXT-X-PART:");
    reveal_strlit("#EXT-X-SERVER-CONTROL:");
    assert(chars::trimmed(line) == line);
    assert(line.subrange(0, 14) =~= line);
    assert(!chars::starts(line, "#EXT-X-MAP:"@)) by {
        if chars::starts(line, "#EXT-X-MAP:"@) {
            assert(line.subrange(0, 11)[7] == 'M');
        }
    }
    assert(!chars::starts(line, "#EXT-X-KEY:"@)) by {
        if chars::starts(line, "#EXT-X-KEY:"@) {
            assert(line.subrange(0, 11)[7] == 'K');
        }
    }
    assert(!chars::starts(line, "#EXT-X-PART:"@)) by {
        if chars::starts(line, "#EXT-X-PART:"@) {
            assert(line.subrange(0, 12)[7] == 'P');
        }
    }
    assert(!chars::starts(line, "#EXTINF:"@)) by {
        if chars::starts(line, "#EXTINF:"@) {
            assert(line.subrange(0, 8)[4] == 'I');
        }
    }
}

/// The lines of a whole playlist.
#[verifier::spinoff_prover]
#[verifier::rlimit(60)]
proof fn lemma_playlist_lines(s: ManifestState) -> (found: (Seq<Seq<char>>, Seq<Seq<Seq<char>>>))
    requires
        plain_state(s),
        !(s.phase is AwaitingFirstSegment),
    ensures
        ({
            let shown = s.shown_segments();
            &&& forall|k: int| 0 <= k < shown.len() ==> plain_segment(#[trigger] shown[k])
            &&& found.1.len() == shown.len()
            &&& forall|k: int| 0 <= k < found.0.len() ==> tag_line(#[trigger] found.0[k])
            &&& forall|k: int, j: int|
                0 <= k < shown.len() && 0 <= j < found.1[k].len() ==> tag_line(
                    #[trigger] found.1[k][j],
                )
            &&& is_lines(
                hls::media_playlist(s),
                found.0 + map_lines(s) + block_lines(shown, found.1, shown.len()) + end_lines(s),
            )
        }),
{
    let shown = s.shown_segments();
    lemma_shown(s);
    assert forall|k: int| 0 <= k < shown.len() implies plain_segment(#[trigger] shown[k]) by {
        assert(shown[k] == s.segments@[s.first_shown() + k]);
    }
    lemma_head_tags(s);
    let t = hls::playlist_head(s) + hls::type_line(s) + "#EXT-X-INDEPENDENT-SEGMENTS\n"@
        + hls::first_keys(s);
    let head = choose|lines: Seq<Seq<char>>| #[trigger] tag_lines(t, lines);
    let lines = lemma_all_lines(s, shown, shown.len());
    let blocks = block_lines(shown, lines, shown.len());
    lemma_frame_lines(s);
    lemma_lines_both(t, head, hls::map_line(s), map_lines(s));
    lemma_lines_both(
        t + hls::map_line(s),
        head + map_lines(s),
        hls::all_segment_lines(s, shown, shown.len()),
        blocks,
    );
    lemma_lines_both(
        t + hls::map_line(s) + hls::all_segment_lines(s, shown, shown.len()),
        head + map_lines(s) + blocks,
        hls::end_line(s),
        end_lines(s),
    );
    (head, lines)
}

proof fn lemma_shown(s: ManifestState)
    ensures
        s.first_shown() <= s.segments@.len(),
{
    if s.dvr_active() {
        types::window_shows_what_fits(s);
    }
}

/// Reading the line of the initialization segment.
proof fn lemma_map_read(
    base: UrlView,
    all: Seq<Seq<char>>,
    i: int,
    s: ManifestState,
    p: PlaylistView,
) -> (q: PlaylistView)
    requires
        plain_state(s),
        0 <= i,
        i + map_lines(s).len() <= all.len(),
        all.subrange(i, i + map_lines(s).len()) == map_lines(s),
        p.steps(base, all, i) is Ok,
    ensures
        reads(base, all, i, (i + map_lines(s).len()) as int, p, q),
        q == (PlaylistView { init: q.init, ..p }),
        match s.init_segment {
            Some(init) => q.init is Some && Ok::<Seq<char>, ErrorView>(q.init->0)
                == hls_input::resolved(base, init.uri@),
            None => q.init == p.init,
        },
{
    match s.init_segment {
        Some(init) => {
            lemma_map_step(p, base, init.uri@);
            assert(all.subrange(i, i + 1)[0] == all[i]);
            p.step(base, chars::trimmed(all[i]))->Ok_0
        },
        None => p,
    }
}

/// Reading the last lines.
proof fn lemma_end_read(
    base: UrlView,
    all: Seq<Seq<char>>,
    i: int,
    s: ManifestState,
    p: PlaylistView,
)
    requires
        0 <= i,
        all.len() == i + end_lines(s).len() + 1,
        all.subrange(i, i + end_lines(s).len()) == end_lines(s),
        all.last() == Seq::<char>::empty(),
    ensures
        p.steps(base, all, i) == Ok::<PlaylistView, ErrorView>(
            PlaylistView { live: p.live && !(s.phase is Complete), ..p },
        ),
{
    let none = Seq::<char>::empty();
    assert(chars::trimmed(none) =~= none);
    let e = i + end_lines(s).len();
    let q = PlaylistView { live: p.live && !(s.phase is Complete), ..p };
    assert(q.step(base, none) == Ok::<PlaylistView, ErrorView>(q)) by {
        reveal_strlit("#EXT-X-ENDLIST");
        reveal_strlit("#EXTINF:");
        reveal_strlit("#EXT-X-MAP:");
        reveal_strlit("#EXT-X-KEY:");
        reveal_strlit("#EXT-X-DATERANGE:");
        reveal_strlit("#EXT-X-PART-INF:");
        reveal_strlit("#EXT-X-PART:");
        reveal_strlit("#EXT-X-SERVER-CONTROL:");
    }
    assert(q.steps(base, all, e) == q.steps(base, all, e + 1));
    if s.phase is Complete {
        lemma_end_step(p, base);
        assert(all.subrange(i, i + 1)[0] == all[i]);
        assert(p.steps(base, all, i) == q.steps(base, all, i + 1));
    }
}

/// A media playlist that was written is read back: the segments that the manifest shows, in
/// order, each with its own reference and its own duration; the initialization segment; and
/// whether the presentation is over.
#[verifier::spinoff_prover]
#[verifier::rlimit(60)]
pub proof fn written_playlist_is_read_back(
    s: ManifestState,
    manifest_url: Seq<char>,
    base: UrlView,
    src: SourceView,
)
    requires
        plain_state(s),
        !(s.phase is AwaitingFirstSegment),
        hls_input::base_of(manifest_url) == Ok::<UrlView, ErrorView>(base),
        hls_input::hls_source(hls::media_playlist(s), manifest_url) == Ok::<SourceView, ErrorView>(
            src,
        ),
    ensures
        segments_read(base, src.segment_urls, src.segment_durations, s.shown_segments()),
        src.is_live == !(s.phase is Complete),
        s.init_segment matches Some(init) ==> Ok::<Seq<char>, ErrorView>(src.init_segment_url)
            == hls_input::resolved(base, init.uri@),
{
    let shown = s.shown_segments();
    let t = hls::media_playlist(s);
    let (head, lines) = lemma_playlist_lines(s);
    let blocks = block_lines(shown, lines, shown.len());
    let whole = head + map_lines(s) + blocks + end_lines(s);
    lemma_pieces(t, whole);
    let all = whole.push(Seq::empty());
    let p0 = PlaylistView::fresh();
    let i1 = head.len() as int;
    let i2 = i1 + map_lines(s).len();
    let i3 = i2 + blocks.len();
    assert(all.subrange(0, i1) =~= head);
    assert(all.subrange(i1, i2) =~= map_lines(s));
    assert(all.subrange(i2, i3) =~= blocks);
    assert(all.subrange(i3, i3 + end_lines(s).len()) =~= end_lines(s));
    let p1 = lemma_tags_read(base, all, 0, head, 0, p0);
    let p2 = lemma_map_read(base, all, i1, s, p1);
    assert(block_lines(shown, lines, 0).len() == 0);
    assert(shown.take(0) =~= Seq::empty());
    let p3 = lemma_blocks_read(base, all, i2, shown, lines, 0, p2);
    lemma_end_read(base, all, i3, s, p3);
}

} // verus!
