//! Lines of a playlist that were written are read back.

use crate::b64;
use crate::chars;
use crate::decimal;
use crate::decimal::Decimal;
use crate::drm::scheme::EncryptionScheme;
use crate::error::ErrorView;
use crate::manifest::hls;
use crate::manifest::hls_input;
use crate::manifest::readback;
use crate::manifest::timeline;
use crate::manifest::types::{AdBreakInfo, ManifestDrmInfo, ManifestState, PartInfo, SegmentInfo};
use crate::text;
use crate::url::UrlView;
use vstd::prelude::*;

verus! {

/// Whether a number is far enough from infinity to be read back.
pub open spec fn finite(d: Decimal) -> bool {
    d.size() < 100_000_000_000_000_000_000_000_000_000_000_000_000
}

/// The value behind a name that ends at `n`, up to the next comma or the end.
pub proof fn lemma_bare(line: Seq<char>, attr: Seq<char>, at: int, value: Seq<char>, end: int)
    requires
        0 <= at,
        chars::stands_at(line, attr + "="@, at),
        forall|k: int| 0 <= k < at ==> !(#[trigger] chars::stands_at(line, attr + "="@, k)),
        end == at + attr.len() + 1 + value.len(),
        end <= line.len(),
        line.subrange(at + attr.len() + 1, end) == value,
        value.len() > 0,
        value[0] != '"',
        forall|k: int| 0 <= k < value.len() ==> #[trigger] value[k] != ',',
        end < line.len() ==> line[end] == ',',
    ensures
        hls_input::bare(line, attr) == Some(value),
{
    reveal_strlit("=");
    let start = at + attr.len() + 1;
    readback::lemma_find_at(line, attr + "="@, 0, at);
    assert(line[start] == line.subrange(start, end)[0]);
    assert forall|k: int| start <= k < end implies #[trigger] line[k] != ',' by {
        assert(line[k] == line.subrange(start, end)[k - start]);
    }
    if end < line.len() {
        readback::lemma_char_at(line, ',', start, end);
    } else {
        lemma_no_char(line, ',', start);
    }
}

pub proof fn lemma_no_char(s: Seq<char>, c: char, i: int)
    requires
        0 <= i <= s.len(),
        forall|k: int| i <= k < s.len() ==> #[trigger] s[k] != c,
    ensures
        chars::char_from(s, c, i) == s.len(),
    decreases s.len() - i,
{
    if i < s.len() {
        lemma_no_char(s, c, i + 1);
    }
}

/// The value between quotation marks behind a name.
pub proof fn lemma_quoted(line: Seq<char>, attr: Seq<char>, at: int, value: Seq<char>)
    requires
        0 <= at,
        chars::stands_at(line, attr + "=\""@, at),
        forall|k: int| 0 <= k < at ==> !(#[trigger] chars::stands_at(line, attr + "=\""@, k)),
        at + attr.len() + 2 + value.len() < line.len(),
        line.subrange(at + attr.len() + 2, (at + attr.len() + 2 + value.len()) as int) == value,
        line[(at + attr.len() + 2 + value.len()) as int] == '"',
        !value.contains('"'),
    ensures
        hls_input::quoted(line, attr) == Some(value),
{
    reveal_strlit("=\"");
    let start = at + attr.len() + 2;
    let end = (start + value.len()) as int;
    readback::lemma_find_at(line, attr + "=\""@, 0, at);
    assert forall|k: int| start <= k < end implies #[trigger] line[k] != '"' by {
        assert(line[k] == line.subrange(start, end)[k - start]);
        assert(value.contains(value[k - start]));
    }
    readback::lemma_char_at(line, '"', start, end);
}

/// A name does not stand where its first letters do not.
proof fn lemma_not_there(line: Seq<char>, p: Seq<char>, k: int, j: int)
    requires
        0 <= k,
        0 <= j < p.len(),
        k + j < line.len() ==> line[k + j] != p[j],
    ensures
        !chars::stands_at(line, p, k),
{
    if chars::stands_at(line, p, k) {
        assert(line.subrange(k, k + p.len())[j] == line[k + j]);
    }
}

// Parts.

/// A name does not stand before an equals sign where the letters around it differ.
pub proof fn lemma_first(line: Seq<char>, attr: Seq<char>, tail: Seq<char>, at: int)
    requires
        0 <= at,
        attr.len() > 0,
        tail.len() > 0,
        tail[0] == '=',
        forall|k: int|
            attr.len() <= k < at + attr.len() && #[trigger] line[k] == '=' ==> line[k - 1]
                != attr.last() || line[k - attr.len()] != attr[0],
    ensures
        forall|k: int| 0 <= k < at ==> !(#[trigger] chars::stands_at(line, attr + tail, k)),
{
    let p = attr + tail;
    let n = attr.len() as int;
    assert forall|k: int| 0 <= k < at implies !(#[trigger] chars::stands_at(line, p, k)) by {
        if chars::stands_at(line, p, k) {
            let t = line.subrange(k, k + p.len());
            assert(t[n] == line[k + n]);
            assert(t[n - 1] == line[k + n - 1]);
            assert(t[0] == line[k]);
            assert(line[k + n] == '=');
        }
    }
}

/// The line of a part, without its line break.
spec fn part_text(p: PartInfo) -> Seq<char> {
    "#EXT-X-PART:DURATION="@ + p.duration.fixed(5) + ",URI=\""@ + p.uri@ + "\""@ + (
    if p.independent {
        ",INDEPENDENT=YES"@
    } else {
        Seq::empty()
    })
}

/// Where the equals signs stand in the line of a part.
#[verifier::rlimit(40)]
proof fn lemma_part_marks(p: PartInfo)
    requires
        finite(p.duration),
        !p.uri@.contains('='),
    ensures
        ({
            let line = part_text(p);
            let n = p.duration.fixed(5).len() as int;
            let m = p.uri@.len() as int;
            &&& line.len() == 28 + n + m + (if p.independent {
                16int
            } else {
                0
            })
            &&& forall|k: int|
                0 <= k < line.len() && k != 20 && k != 25 + n && k != 40 + n + m
                    ==> #[trigger] line[k] != '='
            &&& line[19] == 'N'
            &&& line[24 + n] == 'I'
            &&& line.subrange(12, 21) == "DURATION"@ + "="@
            &&& line.subrange(21, 21 + n) == p.duration.fixed(5)
            &&& line[21 + n] == ','
            &&& line.subrange(22 + n, 27 + n) == "URI"@ + "=\""@
            &&& line.subrange(27 + n, 27 + n + m) == p.uri@
            &&& line[27 + n + m] == '"'
            &&& p.independent ==> line.subrange(29 + n + m, 41 + n + m) == "INDEPENDENT"@ + "="@
            &&& p.independent ==> line.subrange(41 + n + m, 44 + n + m) == "YES"@
        }),
{
    reveal_strlit("#EXT-X-PART:DURATION=");
    reveal_strlit(",URI=\"");
    reveal_strlit("\"");
    reveal_strlit(",INDEPENDENT=YES");
    reveal_strlit("DURATION");
    reveal_strlit("URI");
    reveal_strlit("INDEPENDENT");
    reveal_strlit("=");
    reveal_strlit("=\"");
    reveal_strlit("YES");
    readback::written_decimal_is_read(p.duration, 5);
    let line = part_text(p);
    let f = p.duration.fixed(5);
    let u = p.uri@;
    let n = f.len() as int;
    let m = u.len() as int;
    assert forall|k: int|
        0 <= k < line.len() && k != 20 && k != 25 + n && k != 40 + n + m implies #[trigger] line[k]
        != '=' by {
        if 21 <= k < 21 + n {
            assert(line[k] == f[k - 21]);
        } else if 27 + n <= k < 27 + n + m {
            assert(line[k] == u[k - 27 - n]);
            assert(u.contains(u[k - 27 - n]));
        }
    }
    assert(line.subrange(12, 21) =~= "DURATION"@ + "="@);
    assert(line.subrange(21, 21 + n) =~= f);
    assert(line.subrange(22 + n, 27 + n) =~= "URI"@ + "=\""@);
    assert(line.subrange(27 + n, 27 + n + m) =~= u);
    if p.independent {
        assert(line.subrange(29 + n + m, 41 + n + m) =~= "INDEPENDENT"@ + "="@);
        assert(line.subrange(41 + n + m, 44 + n + m) =~= "YES"@);
    }
}

/// The attributes in the line of a part.
#[verifier::rlimit(40)]
proof fn lemma_part_attrs(p: PartInfo)
    requires
        finite(p.duration),
        !p.uri@.contains('"'),
        !p.uri@.contains('='),
    ensures
        hls_input::bare(part_text(p), "DURATION"@) == Some(p.duration.fixed(5)),
        hls_input::quoted(part_text(p), "URI"@) == Some(p.uri@),
        hls_input::bare(part_text(p), "INDEPENDENT"@) == (if p.independent {
            Some("YES"@)
        } else {
            None
        }),
{
    lemma_part_marks(p);
    readback::written_decimal_is_read(p.duration, 5);
    reveal_strlit("DURATION");
    reveal_strlit("URI");
    reveal_strlit("INDEPENDENT");
    reveal_strlit("=");
    reveal_strlit("=\"");
    reveal_strlit("YES");
    let line = part_text(p);
    let f = p.duration.fixed(5);
    let n = f.len() as int;
    let m = p.uri@.len() as int;
    lemma_first(line, "DURATION"@, "="@, 12);
    lemma_bare(line, "DURATION"@, 12, f, 21 + n);
    lemma_first(line, "URI"@, "=\""@, 22 + n);
    lemma_quoted(line, "URI"@, 22 + n, p.uri@);
    if p.independent {
        lemma_first(line, "INDEPENDENT"@, "="@, 29 + n + m);
        lemma_bare(line, "INDEPENDENT"@, 29 + n + m, "YES"@, 44 + n + m);
    } else {
        let s = "INDEPENDENT"@ + "="@;
        lemma_first(line, "INDEPENDENT"@, "="@, line.len() - 11);
        assert forall|k: int| 0 <= k implies !(#[trigger] chars::stands_at(line, s, k)) by {
            if k >= line.len() - 11 {
                assert(k + s.len() > line.len());
            }
        }
        lemma_not_found(line, s, 0);
    }
}

/// The line of a part, without its line break, is read as a part with the same duration, to
/// within half of the fifth decimal place, the same reference, and the same independence.
pub proof fn written_parts_are_read(p: PartInfo, base: UrlView, number: u32, index: u32)
    requires
        finite(p.duration),
        !p.uri@.contains('"'),
        !p.uri@.contains('='),
        hls_input::resolved(base, p.uri@) is Ok,
    ensures
        hls::part_line(p).last() == '\n',
        hls_input::part_of(hls::part_line(p).drop_last(), base, number, index) matches Some(v) && {
            &&& v.segment_number == number
            &&& v.part_index == index
            &&& -10_000 <= 2 * (v.duration.nanos - p.duration.nanos) <= 10_000
            &&& v.independent == p.independent
            &&& Ok::<Seq<char>, ErrorView>(v.uri) == hls_input::resolved(base, p.uri@)
        },
{
    reveal_strlit("\n");
    assert(hls::part_line(p) =~= part_text(p).push('\n'));
    assert(hls::part_line(p).drop_last() =~= part_text(p));
    lemma_part_attrs(p);
    readback::written_decimal_is_read(p.duration, 5);
    assert(decimal::ten_to(4) == 10_000) by {
        reveal_with_fuel(decimal::ten_to, 6);
    }
}

pub proof fn lemma_not_found(s: Seq<char>, p: Seq<char>, i: int)
    requires
        0 <= i,
        forall|k: int| i <= k ==> !(#[trigger] chars::stands_at(s, p, k)),
    ensures
        chars::find_from(s, p, i) is None,
    decreases s.len() + 1 - i,
{
    if i <= s.len() {
        lemma_not_found(s, p, i + 1);
    }
}

// Ad breaks.

/// What two hexadecimal digits stand for.
proof fn lemma_hex_pair(b: u8)
    ensures
        hls_input::hex_byte(text::hex2(b)[0], text::hex2(b)[1]) == Some(b),
        text::hex2(b)[0] != ',',
        text::hex2(b)[1] != ',',
        text::hex2(b)[0] != '=',
        text::hex2(b)[1] != '=',
{
    let high = b as int / 16;
    let low = b as int % 16;
    assert(0 <= high < 16 && 0 <= low < 16);
    assert(text::hex2(b)[0] == text::hex_digit(high));
    assert(text::hex2(b)[1] == text::hex_digit(low));
}

proof fn lemma_hex_text(bytes: Seq<u8>, n: nat)
    requires
        n <= bytes.len(),
    ensures
        hls::hex_text(bytes, n).len() == 2 * n,
        forall|k: int|
            0 <= k < n ==> #[trigger] hls::hex_text(bytes, n)[2 * k] == text::hex2(bytes[k])[0],
        forall|k: int|
            0 <= k < n ==> #[trigger] hls::hex_text(bytes, n)[2 * k + 1] == text::hex2(bytes[k])[1],
    decreases n,
{
    if n > 0 {
        lemma_hex_text(bytes, (n - 1) as nat);
        let s = hls::hex_text(bytes, n);
        let t = hls::hex_text(bytes, (n - 1) as nat);
        assert forall|k: int| 0 <= k < n implies #[trigger] s[2 * k] == text::hex2(bytes[k])[0] by {
            if k < n - 1 {
                assert(t[2 * k] == text::hex2(bytes[k])[0]);
            }
        }
        assert forall|k: int| 0 <= k < n implies #[trigger] s[2 * k + 1] == text::hex2(bytes[k])[1] by {
            if k < n - 1 {
                assert(t[2 * k + 1] == text::hex2(bytes[k])[1]);
            }
        }
    }
}

proof fn lemma_hex_from(bytes: Seq<u8>, i: nat)
    requires
        i <= bytes.len(),
    ensures
        hls_input::hex_from(
            hls::hex_text(bytes, bytes.len()),
            2 * i as int,
            bytes.take(i as int),
        ) == Some(bytes),
    decreases bytes.len() - i,
{
    lemma_hex_text(bytes, bytes.len());
    let s = hls::hex_text(bytes, bytes.len());
    if i < bytes.len() {
        lemma_hex_pair(bytes[i as int]);
        assert(s[2 * (i as int)] == text::hex2(bytes[i as int])[0]);
        assert(s[2 * (i as int) + 1] == text::hex2(bytes[i as int])[1]);
        assert(bytes.take(i as int).push(bytes[i as int]) =~= bytes.take(i as int + 1));
        lemma_hex_from(bytes, i + 1);
    } else {
        assert(bytes.take(i as int) =~= bytes);
    }
}

/// The bytes of a command that was written in hexadecimal are read.
pub proof fn written_bytes_are_read(bytes: Seq<u8>)
    ensures
        hls_input::hex_bytes(hls::hex_text(bytes, bytes.len())) == Some(bytes),
        forall|k: int|
            0 <= k < 2 * bytes.len() ==> {
                let c = #[trigger] hls::hex_text(bytes, bytes.len())[k];
                c != ',' && c != '='
            },
{
    lemma_hex_text(bytes, bytes.len());
    lemma_hex_from(bytes, 0);
    let s = hls::hex_text(bytes, bytes.len());
    assert(bytes.take(0) =~= Seq::<u8>::empty());
    assert forall|k: int| 0 <= k < 2 * bytes.len() implies {
        let c = #[trigger] s[k];
        c != ',' && c != '='
    } by {
        let b = bytes[k / 2];
        lemma_hex_pair(b);
        if k % 2 == 0 {
            assert(s[2 * (k / 2)] == text::hex2(b)[0]);
        } else {
            assert(s[2 * (k / 2) + 1] == text::hex2(b)[1]);
        }
    }
}

/// Whether a time is at or after the epoch and can be shown in days.
pub open spec fn dated(t: Decimal) -> bool {
    0 <= t.nanos < 31 * 86_400 * 1_000_000_000
}

/// A date names the day, hour, minute, second and thousandth that a time is in, counted from
/// the epoch.
pub proof fn dates_count_from_the_epoch(t: Decimal) -> (at: (nat, nat, nat, nat, nat))
    requires
        dated(t),
    ensures
        ({
            let (day, hour, minute, second, milli) = at;
            &&& 1 <= day <= 31
            &&& hour < 24
            &&& minute < 60
            &&& second < 60
            &&& milli < 1000
            &&& 0 <= t.nanos - 1_000_000 * (1000 * (86_400 * (day - 1) + 3600 * hour + 60 * minute
                + second) + milli) < 1_000_000
            &&& hls::date_text(t) == "1970-01-"@ + text::dec_padded(day, 2) + "T"@
                + text::dec_padded(hour, 2) + ":"@ + text::dec_padded(minute, 2) + ":"@
                + text::dec_padded(second, 2) + "."@ + text::dec_padded(milli, 3) + "Z"@
        }),
{
    let secs = t.in_ticks(1);
    assert(secs == t.nanos / 1_000_000_000);
    let day = secs % 86400;
    let r = t.nanos - secs * 1_000_000_000;
    assert(0 <= r < 1_000_000_000);
    assert(hls::millis_of(t) == (r / 1_000_000) as nat);
    assert((day / 60) % 60 == day / 60 - 60 * (day / 3600));
    (secs / 86400 + 1, day / 3600, (day / 60) % 60, day % 60, hls::millis_of(t))
}

proof fn lemma_digits_plain(n: nat, width: nat)
    ensures
        forall|k: int|
            0 <= k < text::dec_padded(n, width).len() ==> chars::is_digit(
                #[trigger] text::dec_padded(n, width)[k],
            ),
{
    timeline::lemma_dec(n);
}

/// The letters that a date can hold.
pub open spec fn date_char(c: char) -> bool {
    chars::is_digit(c) || c == '-' || c == ':' || c == '.' || c == 'T' || c == 'Z'
}

proof fn lemma_date_chars(t: Decimal)
    ensures
        forall|k: int|
            0 <= k < hls::date_text(t).len() ==> date_char(#[trigger] hls::date_text(t)[k]),
{
    reveal_strlit("1970-01-");
    reveal_strlit("T");
    reveal_strlit(":");
    reveal_strlit(".");
    reveal_strlit("Z");
    let secs = t.in_ticks(1);
    let day = secs % 86400;
    lemma_digits_plain(secs / 86400 + 1, 2);
    lemma_digits_plain(day / 3600, 2);
    lemma_digits_plain((day / 60) % 60, 2);
    lemma_digits_plain(day % 60, 2);
    lemma_digits_plain(hls::millis_of(t), 3);
    let a = "1970-01-"@ + text::dec_padded(secs / 86400 + 1, 2);
    assert(forall|k: int| 0 <= k < a.len() ==> date_char(#[trigger] a[k]));
    let b = a + "T"@ + text::dec_padded(day / 3600, 2);
    assert(forall|k: int| 0 <= k < b.len() ==> date_char(#[trigger] b[k]));
    let c = b + ":"@ + text::dec_padded((day / 60) % 60, 2);
    assert(forall|k: int| 0 <= k < c.len() ==> date_char(#[trigger] c[k]));
    let d = c + ":"@ + text::dec_padded(day % 60, 2);
    assert(forall|k: int| 0 <= k < d.len() ==> date_char(#[trigger] d[k]));
    let e = d + "."@ + text::dec_padded(hls::millis_of(t), 3) + "Z"@;
    assert(forall|k: int| 0 <= k < e.len() ==> date_char(#[trigger] e[k]));
}

/// The line of an ad break up to its command.
spec fn break_start(b: AdBreakInfo) -> Seq<char> {
    "#EXT-X-DATERANGE:ID=\"splice-"@ + text::dec(b.id as nat) + "\",START-DATE=\""@
        + hls::date_text(b.presentation_time) + "\""@
}

spec fn break_length(b: AdBreakInfo) -> Seq<char> {
    match b.duration {
        Some(d) => ",PLANNED-DURATION="@ + d.fixed(3),
        None => Seq::empty(),
    }
}

/// The line of an ad break, without its line break.
spec fn break_text(b: AdBreakInfo, command: Seq<u8>) -> Seq<char> {
    break_start(b) + break_length(b) + ",SCTE35-CMD=0x"@ + hls::hex_text(command, command.len())
}

/// What stands where in the start of an ad break's line.
#[verifier::rlimit(40)]
proof fn lemma_break_start(b: AdBreakInfo)
    ensures
        ({
            let s = break_start(b);
            let n = text::dec(b.id as nat).len() as int;
            &&& s.len() >= 43 + n
            &&& s.subrange(17, 21) == "ID"@ + "=\""@
            &&& s.subrange(21, 28 + n) == "splice-"@ + text::dec(b.id as nat)
            &&& s[28 + n] == '"'
            &&& forall|k: int|
                0 <= k < s.len() && k != 19 && k != 40 + n ==> #[trigger] s[k] != '='
            &&& s[18] == 'D'
            &&& s[9] == 'T'
            &&& s[39 + n] == 'E'
        }),
{
    reveal_strlit("#EXT-X-DATERANGE:ID=\"splice-");
    reveal_strlit("\",START-DATE=\"");
    reveal_strlit("\"");
    reveal_strlit("ID");
    reveal_strlit("=\"");
    reveal_strlit("splice-");
    timeline::lemma_dec(b.id as nat);
    lemma_date_chars(b.presentation_time);
    let s = break_start(b);
    let d = text::dec(b.id as nat);
    let n = d.len() as int;
    let t = hls::date_text(b.presentation_time);
    assert(s.subrange(17, 21) =~= "ID"@ + "=\""@);
    assert(s.subrange(21, 28 + n) =~= "splice-"@ + d);
    assert forall|k: int| 0 <= k < s.len() && k != 19 && k != 40 + n implies #[trigger] s[k]
        != '=' by {
        if 28 <= k < 28 + n {
            assert(s[k] == d[k - 28]);
            assert(chars::is_digit(d[k - 28]));
        } else if 42 + n <= k < 42 + n + t.len() {
            assert(s[k] == t[k - 42 - n]);
            assert(date_char(t[k - 42 - n]));
        }
    }
}

/// Where the equals signs stand in the line of an ad break.
#[verifier::rlimit(40)]
proof fn lemma_break_marks(b: AdBreakInfo, command: Seq<u8>)
    requires
        b.duration is Some ==> finite(b.duration->0),
    ensures
        ({
            let line = break_text(b, command);
            let n = text::dec(b.id as nat).len() as int;
            let la = break_start(b).len() as int;
            let lc = break_length(b).len() as int;
            let hex = hls::hex_text(command, command.len());
            &&& la >= 43 + n
            &&& line.len() == la + lc + 14 + 2 * command.len()
            &&& line.take(la) == break_start(b)
            &&& line[la] == ','
            &&& line[la + lc] == ','
            &&& forall|k: int|
                0 <= k < line.len() && k != 19 && k != 40 + n && k != la + lc + 11 && (k != la + 17
                    || b.duration is None) ==> #[trigger] line[k] != '='
            &&& line.subrange(la + lc + 1, la + lc + 12) == "SCTE35-CMD"@ + "="@
            &&& line.subrange(la + lc + 12, line.len() as int) == "0x"@ + hex
            &&& line[la + lc + 10] == 'D'
            &&& b.duration matches Some(d) ==> {
                &&& lc == 18 + d.fixed(3).len()
                &&& line.subrange(la + 1, la + 18) == "PLANNED-DURATION"@ + "="@
                &&& line.subrange(la + 18, la + lc) == d.fixed(3)
                &&& line[la + 16] == 'N'
            }
            &&& b.duration is None ==> lc == 0
        }),
{
    reveal_strlit(",PLANNED-DURATION=");
    reveal_strlit(",SCTE35-CMD=0x");
    reveal_strlit("=");
    reveal_strlit("PLANNED-DURATION");
    reveal_strlit("SCTE35-CMD");
    reveal_strlit("0x");
    written_bytes_are_read(command);
    lemma_hex_text(command, command.len());
    lemma_break_start(b);
    let hex = hls::hex_text(command, command.len());
    let a = break_start(b);
    let c = break_length(b);
    let line = break_text(b, command);
    let n = text::dec(b.id as nat).len() as int;
    let la = a.len() as int;
    let lc = c.len() as int;
    if b.duration is Some {
        readback::written_decimal_is_read(b.duration->0, 3);
    }
    assert forall|k: int| 0 <= k < lc && k != 17 implies #[trigger] c[k] != '=' by {
        if k >= 18 {
            assert(c[k] == b.duration->0.fixed(3)[k - 18]);
        }
    }
    assert forall|k: int|
        0 <= k < line.len() && k != 19 && k != 40 + n && k != la + lc + 11 && (k != la + 17
            || b.duration is None) implies #[trigger] line[k] != '=' by {
        if k < la {
            assert(line[k] == a[k]);
        } else if k < la + lc {
            assert(line[k] == c[k - la]);
        } else if k >= la + lc + 14 {
            assert(line[k] == hex[k - la - lc - 14]);
        }
    }
    assert(line.take(la) =~= a);
    assert(line.subrange(la + lc + 1, la + lc + 12) =~= "SCTE35-CMD"@ + "="@);
    assert(line.subrange(la + lc + 12, line.len() as int) =~= "0x"@ + hex);
    if b.duration is Some {
        assert(line.subrange(la + 1, la + 18) =~= "PLANNED-DURATION"@ + "="@);
        assert(line.subrange(la + 18, la + lc) =~= b.duration->0.fixed(3));
    }
}

/// The identifier in the line of an ad break.
#[verifier::rlimit(40)]
proof fn lemma_break_id(b: AdBreakInfo, command: Seq<u8>)
    requires
        b.duration is Some ==> finite(b.duration->0),
    ensures
        hls_input::splice_id(
            hls_input::or_empty(hls_input::quoted(break_text(b, command), "ID"@)),
        ) == b.id,
{
    reveal_strlit("ID");
    reveal_strlit("=\"");
    reveal_strlit("splice-");
    lemma_break_start(b);
    lemma_break_marks(b, command);
    timeline::lemma_dec(b.id as nat);
    timeline::written_number_is_read(b.id as nat, u32::MAX as nat);
    let line = break_text(b, command);
    let a = break_start(b);
    let n = text::dec(b.id as nat).len() as int;
    let id = "splice-"@ + text::dec(b.id as nat);
    assert forall|k: int| 0 <= k < a.len() implies #[trigger] line[k] == a[k] by {
        assert(line.take(a.len() as int)[k] == line[k]);
    }
    assert(line.subrange(17, 21) =~= a.subrange(17, 21));
    assert(line.subrange(21, 28 + n) =~= a.subrange(21, 28 + n));
    assert(!id.contains('"')) by {
        assert forall|k: int| 0 <= k < id.len() implies #[trigger] id[k] != '"' by {
            if k >= 7 {
                assert(id[k] == text::dec(b.id as nat)[k - 7]);
                assert(chars::is_digit(text::dec(b.id as nat)[k - 7]));
            }
        }
    }
    lemma_first(line, "ID"@, "=\""@, 17);
    lemma_quoted(line, "ID"@, 17, id);
    assert(id.subrange(0, 7) =~= "splice-"@);
    assert(id.subrange(7, id.len() as int) =~= text::dec(b.id as nat));
}

/// The duration and the command in the line of an ad break.
#[verifier::rlimit(40)]
proof fn lemma_break_attrs(b: AdBreakInfo, command: Seq<u8>)
    requires
        b.duration is Some ==> finite(b.duration->0),
    ensures
        hls_input::bare(break_text(b, command), "SCTE35-CMD"@) == Some(
            "0x"@ + hls::hex_text(command, command.len()),
        ),
        hls_input::bare(break_text(b, command), "PLANNED-DURATION"@) == (match b.duration {
            Some(d) => Some(d.fixed(3)),
            None => None,
        }),
{
    reveal_strlit("=");
    reveal_strlit("PLANNED-DURATION");
    reveal_strlit("SCTE35-CMD");
    reveal_strlit("0x");
    lemma_break_start(b);
    lemma_break_marks(b, command);
    written_bytes_are_read(command);
    lemma_hex_text(command, command.len());
    let line = break_text(b, command);
    let a = break_start(b);
    let la = a.len() as int;
    let lc = break_length(b).len() as int;
    let hex = hls::hex_text(command, command.len());
    assert forall|k: int| 0 <= k < la implies #[trigger] line[k] == a[k] by {
        assert(line.take(la)[k] == line[k]);
    }
    let value = "0x"@ + hex;
    assert forall|k: int| 0 <= k < value.len() implies #[trigger] value[k] != ',' by {
        if k >= 2 {
            assert(value[k] == hex[k - 2]);
        }
    }
    lemma_first(line, "SCTE35-CMD"@, "="@, la + lc + 1);
    lemma_bare(line, "SCTE35-CMD"@, la + lc + 1, value, line.len() as int);
    let p = "PLANNED-DURATION"@ + "="@;
    match b.duration {
        Some(d) => {
            readback::written_decimal_is_read(d, 3);
            lemma_first(line, "PLANNED-DURATION"@, "="@, la + 1);
            lemma_bare(line, "PLANNED-DURATION"@, la + 1, d.fixed(3), la + lc);
        },
        None => {
            lemma_first(line, "PLANNED-DURATION"@, "="@, line.len() - 16);
            assert forall|k: int| 0 <= k implies !(#[trigger] chars::stands_at(line, p, k)) by {
                if k >= line.len() - 16 {
                    assert(k + p.len() > line.len());
                }
            }
            lemma_not_found(line, p, 0);
        },
    }
}

/// The line of an ad break with a command, without its line break, is read as an ad break with
/// the same identifier and command, and the same duration to within half of the third decimal
/// place.
pub proof fn written_breaks_are_read(b: AdBreakInfo, command: Seq<u8>, number: u32, elapsed: Decimal)
    requires
        b.scte35_cmd is Some,
        b.scte35_cmd->0@ == b64::encoded(command),
        b.duration is Some ==> finite(b.duration->0),
    ensures
        hls::break_line(b).last() == '\n',
        hls_input::ad_break_of(hls::break_line(b).drop_last(), number, elapsed) matches Some(v) && {
            &&& v.id == b.id
            &&& v.presentation_time == elapsed
            &&& v.segment_number == number
            &&& v.scte35_cmd == Some(b.scte35_cmd->0@)
            &&& v.duration is Some == b.duration is Some
            &&& b.duration matches Some(d) ==> -1_000_000 <= 2 * (v.duration->0.nanos - d.nanos)
                <= 1_000_000
        },
{
    reveal_strlit("\n");
    reveal_strlit("0x");
    b64::decode_after_encode(command);
    assert(hls::break_line(b) =~= break_text(b, command).push('\n'));
    assert(hls::break_line(b).drop_last() =~= break_text(b, command));
    lemma_break_id(b, command);
    lemma_break_attrs(b, command);
    written_bytes_are_read(command);
    let value = "0x"@ + hls::hex_text(command, command.len());
    assert(value.subrange(0, 2) =~= "0x"@);
    assert(value.subrange(2, value.len() as int) =~= hls::hex_text(command, command.len()));
    if b.duration is Some {
        readback::written_decimal_is_read(b.duration->0, 3);
        assert(decimal::ten_to(6) == 1_000_000) by {
            reveal_with_fuel(decimal::ten_to, 8);
        }
    }
}

// Which lines stand before a segment.

/// Texts one after the other.
pub open spec fn joined(list: Seq<Seq<char>>) -> Seq<char>
    decreases list.len(),
{
    if list.len() == 0 {
        Seq::empty()
    } else {
        joined(list.drop_last()) + list.last()
    }
}

/// The ad breaks of a segment.
pub open spec fn breaks_of(list: Seq<AdBreakInfo>, number: u32) -> Seq<AdBreakInfo> {
    list.filter(|b: AdBreakInfo| b.segment_number == number)
}

/// The parts of a segment.
pub open spec fn parts_of(list: Seq<PartInfo>, number: u32) -> Seq<PartInfo> {
    list.filter(|p: PartInfo| p.segment_number == number)
}

proof fn lemma_breaks_of(list: Seq<AdBreakInfo>, number: u32, n: nat)
    requires
        n <= list.len(),
    ensures
        hls::break_lines(list, number, n) == joined(
            breaks_of(list.take(n as int), number).map_values(|b: AdBreakInfo| hls::break_line(b)),
        ),
    decreases n,
{
    reveal(Seq::filter);
    let g = |b: AdBreakInfo| hls::break_line(b);
    let t = list.take(n as int);
    if n > 0 {
        lemma_breaks_of(list, number, (n - 1) as nat);
        assert(t.drop_last() =~= list.take(n - 1));
        let old_list = breaks_of(list.take(n - 1), number);
        if list[n - 1].segment_number == number {
            assert(breaks_of(t, number) == old_list.push(list[n - 1]));
            assert(old_list.push(list[n - 1]).map_values(g).drop_last() =~= old_list.map_values(g));
        } else {
            assert(breaks_of(t, number) == old_list);
        }
    }
}

proof fn lemma_parts_of(list: Seq<PartInfo>, number: u32, n: nat)
    requires
        n <= list.len(),
    ensures
        hls::part_lines(list, number, n) == joined(
            parts_of(list.take(n as int), number).map_values(|p: PartInfo| hls::part_line(p)),
        ),
    decreases n,
{
    reveal(Seq::filter);
    let g = |p: PartInfo| hls::part_line(p);
    let t = list.take(n as int);
    if n > 0 {
        lemma_parts_of(list, number, (n - 1) as nat);
        assert(t.drop_last() =~= list.take(n - 1));
        let old_list = parts_of(list.take(n - 1), number);
        if list[n - 1].segment_number == number {
            assert(parts_of(t, number) == old_list.push(list[n - 1]));
            assert(old_list.push(list[n - 1]).map_values(g).drop_last() =~= old_list.map_values(g));
        } else {
            assert(parts_of(t, number) == old_list);
        }
    }
}

/// The latest key period that one of the first `k` segments names.
pub open spec fn latest_period(shown: Seq<SegmentInfo>, k: nat) -> Option<u32>
    decreases k,
{
    if k == 0 {
        None
    } else if shown[k - 1].key_period is Some {
        shown[k - 1].key_period
    } else {
        latest_period(shown, (k - 1) as nat)
    }
}

proof fn lemma_latest_period(s: ManifestState, shown: Seq<SegmentInfo>, k: nat)
    requires
        s.rotation_drm_info@.len() > 0,
        k <= shown.len(),
    ensures
        hls::last_period(s, shown, k) == latest_period(shown, k),
    decreases k,
{
    if k > 0 {
        lemma_latest_period(s, shown, (k - 1) as nat);
    }
}

/// The text from where shown segment `k` starts to its end: its keys come first, then the ad
/// breaks and the parts that carry its number, then its duration and reference.
pub open spec fn block(s: ManifestState, k: int, keys: Seq<char>) -> Seq<char> {
    let seg = s.shown_segments()[k];
    keys + joined(
        breaks_of(s.shown_items(s.ad_breaks@), seg.number).map_values(
            |b: AdBreakInfo| hls::break_line(b),
        ),
    ) + (if s.parts@.len() > 0 {
        joined(
            parts_of(s.shown_items(s.parts@), seg.number).map_values(
                |p: PartInfo| hls::part_line(p),
            ),
        )
    } else {
        Seq::empty()
    }) + "#EXTINF:"@ + seg.duration.fixed(6) + ",\n"@ + seg.uri@ + "\n"@
}

/// The keys that come into force at shown segment `k`: those of the manifest where its clear
/// lead ends, then those of the segment's key period, in turn among the manifest's rotating
/// keys, where the segments before it were in another period.
pub open spec fn keys_at(s: ManifestState, k: int) -> Seq<char> {
    let shown = s.shown_segments();
    (match s.drm_info {
        Some(d) => if s.clear_lead_boundary == Some(shown[k].number) {
            hls::keys_text(s, d)
        } else {
            Seq::empty()
        },
        None => Seq::empty(),
    }) + (match shown[k].key_period {
        Some(p) => if s.rotation_drm_info@.len() > 0 && latest_period(shown, k as nat) != Some(p) {
            hls::keys_text(s, s.rotation_drm_info@[p as int % s.rotation_drm_info@.len() as int])
        } else {
            Seq::empty()
        },
        None => Seq::empty(),
    })
}

proof fn lemma_blocks(s: ManifestState, n: nat)
    requires
        n <= s.shown_segments().len(),
    ensures
        hls::all_segment_lines(s, s.shown_segments(), n) == joined(
            Seq::new(n, |k: int| block(s, k, keys_at(s, k))),
        ),
    decreases n,
{
    let f = |k: int| block(s, k, keys_at(s, k));
    if n > 0 {
        let k = n - 1;
        lemma_blocks(s, k as nat);
        let shown = s.shown_segments();
        let breaks = s.shown_items(s.ad_breaks@);
        let parts = s.shown_items(s.parts@);
        lemma_breaks_of(breaks, shown[k].number, breaks.len());
        lemma_parts_of(parts, shown[k].number, parts.len());
        assert(breaks.take(breaks.len() as int) =~= breaks);
        assert(parts.take(parts.len() as int) =~= parts);
        if s.parts@.len() == 0 {
            lemma_nothing_shown(s);
        }
        if s.rotation_drm_info@.len() > 0 {
            lemma_latest_period(s, shown, k as nat);
        }
        assert(hls::lead_end_keys(s, shown[k]) + hls::rotation_keys(
            s,
            shown[k],
            hls::last_period(s, shown, k as nat),
        ) =~= keys_at(s, k));
        assert(hls::segment_lines(s, shown[k], hls::last_period(s, shown, k as nat)) =~= block(
            s,
            k,
            keys_at(s, k),
        ));
        assert(Seq::new(n, f).drop_last() =~= Seq::new(k as nat, f));
    }
}

proof fn lemma_nothing_shown(s: ManifestState)
    requires
        s.parts@.len() == 0,
    ensures
        s.shown_items(s.parts@).len() == 0,
{
}

/// A media playlist shows each segment in turn, with the keys that come into force at it, and
/// with the ad breaks and the parts of that segment and no other.
pub proof fn playlists_show_segments_in_turn(s: ManifestState) -> (r: (Seq<char>, Seq<char>))
    requires
        !(s.phase is AwaitingFirstSegment),
    ensures
        hls::media_playlist(s) == r.0 + joined(
            Seq::new(s.shown_segments().len(), |k: int| block(s, k, keys_at(s, k))),
        ) + r.1,
        s.phase is Complete <==> r.1.len() > 0,
{
    lemma_blocks(s, s.shown_segments().len());
    reveal_strlit("#EXT-X-ENDLIST\n");
    let start = hls::playlist_head(s) + hls::type_line(s) + "#EXT-X-INDEPENDENT-SEGMENTS\n"@
        + hls::first_keys(s) + hls::map_line(s);
    (start, hls::end_line(s))
}

// Keys.

/// Whether a text can stand as the reference of a key.
pub open spec fn plain_key(uri: Seq<char>) -> bool {
    &&& !uri.contains('"')
    &&& !chars::holds(uri, "KEYFORMAT="@)
    &&& !chars::holds(uri, "KEYID="@)
}

/// Whether a text can stand as the identifier of a key.
pub open spec fn plain_kid(kid: Seq<char>) -> bool {
    !kid.contains('K') && !kid.contains(',') && !kid.contains('"')
}

/// Whether a line names a key: its method, reference, identifier and system.
pub open spec fn names_key(
    line: Seq<char>,
    method: Seq<char>,
    uri: Seq<char>,
    kid: Seq<char>,
    format: Seq<char>,
) -> bool {
    &&& chars::starts(line, "#EXT-X-KEY:"@)
    &&& hls_input::bare(line, "METHOD"@) == Some(method)
    &&& hls_input::quoted(line, "URI"@) == Some(uri)
    &&& hls_input::bare(line, "KEYID"@) == Some("0x"@ + kid)
    &&& hls_input::quoted(line, "KEYFORMAT"@) == Some(format)
}

/// The method that players are told for a scheme.
pub open spec fn method_for(scheme: EncryptionScheme) -> Seq<char> {
    match scheme {
        EncryptionScheme::Cenc => "SAMPLE-AES-CTR"@,
        EncryptionScheme::Cbcs => "SAMPLE-AES"@,
        EncryptionScheme::Clear => "NONE"@,
    }
}

proof fn lemma_held(s: Seq<char>, p: Seq<char>, i: int, k: int)
    requires
        0 <= i <= k,
        chars::stands_at(s, p, k),
    ensures
        chars::find_from(s, p, i) is Some,
    decreases k - i,
{
    if i < k && !chars::stands_at(s, p, i) {
        lemma_held(s, p, i + 1, k);
    }
}

/// The line of a key names it.
#[verifier::spinoff_prover]
#[verifier::rlimit(80)]
proof fn lemma_key_line(scheme: EncryptionScheme, uri: Seq<char>, kid: Seq<char>, format: Seq<char>)
    requires
        plain_key(uri),
        plain_kid(kid),
        !format.contains('"'),
    ensures
        ({
            let tag = hls::key_tag("#EXT-X-KEY"@, scheme.hls_method(), uri, kid, format);
            &&& tag.len() > 0
            &&& tag.last() == '\n'
            &&& names_key(tag.drop_last(), method_for(scheme), uri, kid, format)
        }),
{
    reveal_strlit("#EXT-X-KEY");
    reveal_strlit("#EXT-X-KEY:");
    reveal_strlit(":METHOD=");
    reveal_strlit(",URI=\"");
    reveal_strlit("\",KEYID=0x");
    reveal_strlit(",KEYFORMAT=\"");
    reveal_strlit("\",KEYFORMATVERSIONS=\"1\"\n");
    reveal_strlit("\",KEYFORMATVERSIONS=\"1\"");
    reveal_strlit("SAMPLE-AES");
    reveal_strlit("SAMPLE-AES-CTR");
    reveal_strlit("NONE");
    reveal_strlit("METHOD");
    reveal_strlit("URI");
    reveal_strlit("KEYID");
    reveal_strlit("KEYFORMAT");
    reveal_strlit("KEYFORMAT=");
    reveal_strlit("KEYID=");
    reveal_strlit("=");
    reveal_strlit("=\"");
    reveal_strlit("0x");
    let method = method_for(scheme);
    let tag = hls::key_tag("#EXT-X-KEY"@, scheme.hls_method(), uri, kid, format);
    let line = "#EXT-X-KEY"@ + ":METHOD="@ + method + ",URI=\""@ + uri + "\",KEYID=0x"@ + kid
        + ",KEYFORMAT=\""@ + format + "\",KEYFORMATVERSIONS=\"1\""@;
    assert(tag =~= line.push('\n'));
    assert(tag.drop_last() =~= line);
    assert(line.subrange(0, 11) =~= "#EXT-X-KEY:"@);
    let a = method.len() as int;
    let m = uri.len() as int;
    let c = kid.len() as int;
    let f = format.len() as int;
    assert forall|k: int| 0 <= k < a implies #[trigger] method[k] != ',' && method[k] != 'U'
        && method[k] != 'K' && method[k] != '"' by {}
    assert forall|k: int| 18 <= k < 18 + a implies #[trigger] line[k] == method[k - 18] by {}
    let u = 24 + a;
    assert forall|k: int| u <= k < u + m implies #[trigger] line[k] == uri[k - u] by {}
    let e = u + m;
    let i = e + 10;
    assert forall|k: int| i <= k < i + c implies #[trigger] line[k] == kid[k - i] by {}
    assert forall|k: int| 0 <= k < c implies #[trigger] kid[k] != 'K' && kid[k] != ',' by {
        assert(kid.contains(kid[k]));
    }
    // The method.
    assert(line.subrange(11, 18) =~= "METHOD"@ + "="@);
    assert forall|k: int| 0 <= k < 11 implies !(#[trigger] chars::stands_at(
        line,
        "METHOD"@ + "="@,
        k,
    )) by {
        lemma_not_there(line, "METHOD"@ + "="@, k, 0);
    }
    assert(line.subrange(18, 18 + a) =~= method);
    lemma_bare(line, "METHOD"@, 11, method, 18 + a);
    // The reference.
    assert(line.subrange(19 + a, u) =~= "URI"@ + "=\""@);
    assert forall|k: int| 0 <= k < 19 + a implies !(#[trigger] chars::stands_at(
        line,
        "URI"@ + "=\""@,
        k,
    )) by {
        if 18 <= k < 18 + a {
            assert(line[k] == method[k - 18]);
        }
        lemma_not_there(line, "URI"@ + "=\""@, k, 0);
    }
    assert(line.subrange(u, e) =~= uri);
    lemma_quoted(line, "URI"@, 19 + a, uri);
    lemma_key_rest(line, method, uri, kid, format, u);
}

/// The identifier and the system in the line of a key.
#[verifier::spinoff_prover]
#[verifier::rlimit(80)]
proof fn lemma_key_rest(
    line: Seq<char>,
    method: Seq<char>,
    uri: Seq<char>,
    kid: Seq<char>,
    format: Seq<char>,
    u: int,
)
    requires
        plain_key(uri),
        plain_kid(kid),
        !format.contains('"'),
        u == 24 + method.len(),
        forall|k: int| 0 <= k < method.len() ==> #[trigger] method[k] != 'K',
        line == "#EXT-X-KEY"@ + ":METHOD="@ + method + ",URI=\""@ + uri + "\",KEYID=0x"@ + kid
            + ",KEYFORMAT=\""@ + format + "\",KEYFORMATVERSIONS=\"1\""@,
    ensures
        hls_input::bare(line, "KEYID"@) == Some("0x"@ + kid),
        hls_input::quoted(line, "KEYFORMAT"@) == Some(format),
{
    reveal_strlit("#EXT-X-KEY");
    reveal_strlit(":METHOD=");
    reveal_strlit(",URI=\"");
    reveal_strlit("\",KEYID=0x");
    reveal_strlit(",KEYFORMAT=\"");
    reveal_strlit("\",KEYFORMATVERSIONS=\"1\"");
    reveal_strlit("KEYID");
    reveal_strlit("KEYFORMAT");
    reveal_strlit("KEYFORMAT=");
    reveal_strlit("KEYID=");
    reveal_strlit("=");
    reveal_strlit("=\"");
    reveal_strlit("0x");
    let a = method.len() as int;
    let m = uri.len() as int;
    let c = kid.len() as int;
    let f = format.len() as int;
    let e = u + m;
    let i = e + 10;
    assert forall|k: int| 18 <= k < 18 + a implies #[trigger] line[k] == method[k - 18] by {}
    assert forall|k: int| u <= k < u + m implies #[trigger] line[k] == uri[k - u] by {}
    assert forall|k: int| i <= k < i + c implies #[trigger] line[k] == kid[k - i] by {}
    assert forall|k: int| 0 <= k < c implies #[trigger] kid[k] != 'K' && kid[k] != ',' by {
        assert(kid.contains(kid[k]));
    }
    assert(line[e] == '"');
    assert(line[e + 5] == 'I');
    let q = "KEYID"@ + "="@;
    assert(q =~= "KEYID="@);
    assert(line.subrange(e + 2, e + 8) =~= q);
    assert forall|k: int| 0 <= k < e + 2 implies !(#[trigger] chars::stands_at(line, q, k)) by {
        if k == 7 {
            lemma_not_there(line, q, k, 3);
        } else if u <= k < e {
            if k + 6 <= e {
                if chars::stands_at(line, q, k) {
                    assert(uri.subrange(k - u, k - u + 6) =~= line.subrange(k, k + 6));
                    lemma_held(uri, "KEYID="@, 0, k - u);
                }
            } else {
                lemma_not_there(line, q, k, e - k);
            }
        } else {
            if 18 <= k < 18 + a {
                assert(line[k] == method[k - 18]);
            }
            lemma_not_there(line, q, k, 0);
        }
    }
    let id = "0x"@ + kid;
    assert(line.subrange(e + 8, i + c) =~= id);
    assert forall|k: int| 0 <= k < id.len() implies #[trigger] id[k] != ',' by {
        if k >= 2 {
            assert(id[k] == kid[k - 2]);
        }
    }
    lemma_bare(line, "KEYID"@, e + 2, id, i + c);
    let p = "KEYFORMAT"@ + "=\""@;
    let at = i + c + 1;
    assert(line.subrange(at, at + 11) =~= p);
    assert forall|k: int| 0 <= k < at implies !(#[trigger] chars::stands_at(line, p, k)) by {
        if k == 7 || k == e + 2 {
            lemma_not_there(line, p, k, 3);
        } else if u <= k < e {
            if k + 10 <= e {
                if chars::stands_at(line, p, k) {
                    assert(line.subrange(k, k + 11).take(10) =~= p.take(10));
                    assert(p.take(10) =~= "KEYFORMAT="@);
                    assert(uri.subrange(k - u, k - u + 10) =~= line.subrange(k, k + 11).take(10));
                    lemma_held(uri, "KEYFORMAT="@, 0, k - u);
                }
            } else {
                lemma_not_there(line, p, k, e - k);
            }
        } else {
            if 18 <= k < 18 + a {
                assert(line[k] == method[k - 18]);
            } else if i <= k < i + c {
                assert(line[k] == kid[k - i]);
            }
            lemma_not_there(line, p, k, 0);
        }
    }
    assert(line.subrange(at + 11, at + 11 + f) =~= format);
    lemma_quoted(line, "KEYFORMAT"@, at, format);
}

/// Whether a system with such data, under such a name, has a line of its own for its key, or
/// no line where there is no data.
pub open spec fn system_named(
    lines: Seq<Seq<char>>,
    d: ManifestDrmInfo,
    uri: Option<Seq<char>>,
    format: Seq<char>,
    i: int,
) -> bool {
    match uri {
        Some(u) => 0 <= i < lines.len() && names_key(
            lines[i],
            method_for(d.encryption_scheme),
            u,
            d.default_kid@,
            format,
        ),
        None => true,
    }
}

/// A PSSH box as a reference.
pub open spec fn inline_data(pssh: Option<String>) -> Option<Seq<char>> {
    match pssh {
        Some(p) => Some("data:text/plain;base64,"@ + p@),
        None => None,
    }
}

pub open spec fn one_if<T>(t: Option<T>) -> int {
    if t is Some {
        1
    } else {
        0
    }
}

/// Whether the DRM data can be told line by line.
pub open spec fn plain_keys(d: ManifestDrmInfo) -> bool {
    &&& plain_kid(d.default_kid@)
    &&& d.fairplay_key_uri is Some ==> plain_key(d.fairplay_key_uri->0@)
    &&& d.widevine_pssh is Some ==> plain_key(inline_data(d.widevine_pssh)->0)
    &&& d.playready_pssh is Some ==> plain_key(inline_data(d.playready_pssh)->0)
    &&& d.clearkey_pssh is Some ==> plain_key(inline_data(d.clearkey_pssh)->0)
}

/// Each DRM system that a manifest has data for gets one line, which names the system, the
/// method, the key and that system's own data; no other line is written.
#[verifier::rlimit(60)]
pub proof fn each_system_names_its_key(d: ManifestDrmInfo) -> (lines: Seq<Seq<char>>)
    requires
        plain_keys(d),
    ensures
        hls::drm_keys(d) == joined(lines.map_values(|l: Seq<char>| l.push('\n'))),
        ({
            let w = one_if(d.fairplay_key_uri);
            let p = w + one_if(d.widevine_pssh);
            let c = p + one_if(d.playready_pssh);
            &&& lines.len() == c + one_if(d.clearkey_pssh)
            &&& system_named(
                lines,
                d,
                match d.fairplay_key_uri {
                    Some(u) => Some(u@),
                    None => None,
                },
                "com.apple.streamingkeydelivery"@,
                0,
            )
            &&& system_named(
                lines,
                d,
                inline_data(d.widevine_pssh),
                "urn:uuid:edef8ba9-79d6-4ace-a3c8-27dcd51d21ed"@,
                w,
            )
            &&& system_named(
                lines,
                d,
                inline_data(d.playready_pssh),
                "urn:uuid:9a04f079-9840-4286-ab92-e65be0885f95"@,
                p,
            )
            &&& system_named(
                lines,
                d,
                inline_data(d.clearkey_pssh),
                "urn:uuid:e2719d58-a985-b3c9-781a-b030af78d30e"@,
                c,
            )
        }),
{
    let fair = "com.apple.streamingkeydelivery"@;
    let wide = "urn:uuid:edef8ba9-79d6-4ace-a3c8-27dcd51d21ed"@;
    let ready = "urn:uuid:9a04f079-9840-4286-ab92-e65be0885f95"@;
    let clear = "urn:uuid:e2719d58-a985-b3c9-781a-b030af78d30e"@;
    assert(!fair.contains('"') && !wide.contains('"') && !ready.contains('"') && !clear.contains(
        '"',
    )) by {
        reveal_strlit("com.apple.streamingkeydelivery");
        reveal_strlit("urn:uuid:edef8ba9-79d6-4ace-a3c8-27dcd51d21ed");
        reveal_strlit("urn:uuid:9a04f079-9840-4286-ab92-e65be0885f95");
        reveal_strlit("urn:uuid:e2719d58-a985-b3c9-781a-b030af78d30e");
    }
    let a = lemma_system(d, match d.fairplay_key_uri {
        Some(u) => Some(u@),
        None => None,
    }, fair);
    let b = lemma_system(d, inline_data(d.widevine_pssh), wide);
    let c = lemma_system(d, inline_data(d.playready_pssh), ready);
    let e = lemma_system(d, inline_data(d.clearkey_pssh), clear);
    let lines = a + b + c + e;
    let g = |l: Seq<char>| l.push('\n');
    lemma_joined_both(a, b);
    lemma_joined_both(a + b, c);
    lemma_joined_both(a + b + c, e);
    lines
}

/// The lines for one system: one or none.
proof fn lemma_system(d: ManifestDrmInfo, uri: Option<Seq<char>>, format: Seq<char>) -> (lines: Seq<
    Seq<char>,
>)
    requires
        plain_kid(d.default_kid@),
        uri is Some ==> plain_key(uri->0),
        !format.contains('"'),
    ensures
        lines.len() == one_if(uri),
        joined(lines.map_values(|l: Seq<char>| l.push('\n'))) == (match uri {
            Some(u) => hls::key_tag(
                "#EXT-X-KEY"@,
                d.encryption_scheme.hls_method(),
                u,
                d.default_kid@,
                format,
            ),
            None => Seq::empty(),
        }),
        system_named(lines, d, uri, format, 0),
{
    let g = |l: Seq<char>| l.push('\n');
    match uri {
        Some(u) => {
            lemma_key_line(d.encryption_scheme, u, d.default_kid@, format);
            let tag = hls::key_tag(
                "#EXT-X-KEY"@,
                d.encryption_scheme.hls_method(),
                u,
                d.default_kid@,
                format,
            );
            let line = tag.drop_last();
            let lines = seq![line];
            assert(line.push('\n') =~= tag);
            assert(lines.map_values(g) =~= seq![tag]);
            assert(seq![tag].drop_last() =~= Seq::<Seq<char>>::empty());
            assert(joined(seq![tag]) =~= tag) by {
                reveal_with_fuel(joined, 2);
            }
            lines
        },
        None => {
            let lines = Seq::<Seq<char>>::empty();
            assert(lines.map_values(g) =~= Seq::<Seq<char>>::empty());
            lines
        },
    }
}

proof fn lemma_joined_both(a: Seq<Seq<char>>, b: Seq<Seq<char>>)
    ensures
        joined((a + b).map_values(|l: Seq<char>| l.push('\n'))) == joined(
            a.map_values(|l: Seq<char>| l.push('\n')),
        ) + joined(b.map_values(|l: Seq<char>| l.push('\n'))),
    decreases b.len(),
{
    let g = |l: Seq<char>| l.push('\n');
    if b.len() == 0 {
        assert(a + b =~= a);
    } else {
        lemma_joined_both(a, b.drop_last());
        assert((a + b).map_values(g).drop_last() =~= (a + b.drop_last()).map_values(g));
        assert(b.map_values(g).drop_last() =~= b.drop_last().map_values(g));
        assert((a + b).map_values(g).last() == b.map_values(g).last());
    }
}

} // verus!
