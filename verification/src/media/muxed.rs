//! A transport stream that was written packet by packet is demuxed again.

use crate::bytes;
use crate::error::ErrorView;
use crate::media::ts;
use crate::media::ts::{
    DemuxView, DemuxedView, PesView, PmtStream, PmtView, StreamView, TsCodec, TsPacketView,
};
use vstd::prelude::*;

verus! {

// Time stamps.

/// A time of 33 bits in the five bytes of a PES header: three bits, fifteen and fifteen, each with
/// a marker bit behind, after four bits that say which time it is.
pub open spec fn stamp(mark: int, t: int) -> Seq<u8> {
    seq![
        (mark * 16 + (t / 0x4000_0000) * 2 + 1) as u8,
        ((t / 0x40_0000) % 256) as u8,
        ((t / 0x8000) % 128 * 2 + 1) as u8,
        ((t / 0x80) % 256) as u8,
        (t % 128 * 2 + 1) as u8,
    ]
}

/// A time stamp that was written is read back.
pub proof fn stamps_read_back(s: Seq<u8>, i: int, mark: int, t: int)
    requires
        0 <= i,
        i + 5 <= s.len(),
        0 <= mark < 16,
        0 <= t < 0x2_0000_0000,
        s.subrange(i, i + 5) == stamp(mark, t),
    ensures
        ts::timestamp_at(s, i) == t,
{
    let b = s.subrange(i, i + 5);
    assert(b[0] == s[i] && b[1] == s[i + 1] && b[2] == s[i + 2] && b[3] == s[i + 3] && b[4] == s[i
        + 4]);
    assert(t == (t / 0x4000_0000) * 0x4000_0000 + ((t / 0x40_0000) % 256) * 0x40_0000 + ((t
        / 0x8000) % 128) * 0x8000 + ((t / 0x80) % 256) * 0x80 + t % 128);
}

// Transport packets.

/// Whether 188 bytes are a transport packet with an identifier, with or without the start of a
/// unit, and with a payload, behind an adaptation field where there is one.
pub open spec fn carries(p: Seq<u8>, pid: int, start: bool, payload: Seq<u8>) -> bool {
    &&& p.len() == 188
    &&& p[0] == 0x47
    &&& 0 <= pid < 0x2000
    &&& p[1] == pid / 256 + if start {
        0x40int
    } else {
        0
    }
    &&& p[2] == pid % 256
    &&& (0x10 <= p[3] < 0x20 && p.subrange(4, 188) == payload) || (0x30 <= p[3] < 0x40 && 5 + p[4]
        <= 188 && p.subrange(5 + p[4], 188) == payload)
}

/// A transport packet is read as what it carries.
pub proof fn packets_read_back(p: Seq<u8>, pid: int, start: bool, payload: Seq<u8>)
    requires
        carries(p, pid, start, payload),
    ensures
        ts::packet_of(p) matches Ok(v) && v.pid == pid && v.pusi == start && v.payload == payload,
{
    let a = p.skip(4);
    assert(a[0] == p[4]);
    assert(ts::adaptation_of(a).length == p[4]);
    assert(bytes::clamped(p, 4, 188) =~= p.subrange(4, 188));
    if 0x30 <= p[3] < 0x40 {
        assert(bytes::clamped(p, 5 + p[4], 188) =~= p.subrange(5 + p[4], 188));
    }
}

// PES packets.

/// Whether bytes are the header of a PES packet of a stream with its times: a start code, two bytes
/// of flags, the length of what follows them, and a time stamp for each time.
pub open spec fn pes_start(h: Seq<u8>, u: PesView) -> bool {
    &&& h.len() >= 9
    &&& h[0] == 0 && h[1] == 0 && h[2] == 1
    &&& h[3] == u.stream_id
    &&& !ts::bare_stream(u.stream_id)
    &&& h.len() == 9 + h[8]
    &&& match (u.pts, u.dts) {
        (Some(p), Some(d)) => 0xC0 <= h[7] && h.len() >= 19 && p < 0x2_0000_0000 && d
            < 0x2_0000_0000 && h.subrange(9, 14) == stamp(3, p as int) && h.subrange(14, 19)
            == stamp(1, d as int),
        (Some(p), None) => 0x80 <= h[7] < 0xC0 && h.len() >= 14 && p < 0x2_0000_0000 && h.subrange(
            9,
            14,
        ) == stamp(2, p as int),
        (None, None) => h[7] < 0x80,
        (None, Some(_)) => false,
    }
}

/// The header of a PES packet is read as what it says.
#[verifier::rlimit(60)]
pub proof fn pes_headers_read_back(h: Seq<u8>, u: PesView, rest: Seq<u8>)
    requires
        pes_start(h, u),
    ensures
        ts::pes_header_of(h + rest) matches Ok(v) && v.stream_id == u.stream_id && v.pts == u.pts
            && v.dts == u.dts && v.length == h.len(),
{
    let s = h + rest;
    assert(s[0] == h[0] && s[1] == h[1] && s[2] == h[2] && s[3] == h[3] && s[7] == h[7] && s[8]
        == h[8]);
    if let Some(p) = u.pts {
        assert(s.subrange(9, 14) =~= h.subrange(9, 14));
        stamps_read_back(
            s,
            9,
            if u.dts is Some {
                3
            } else {
                2
            },
            p as int,
        );
        if let Some(d) = u.dts {
            assert(s.subrange(14, 19) =~= h.subrange(14, 19));
            stamps_read_back(s, 14, 1, d as int);
        }
    }
}

/// A piece of a stream: whether a PES packet starts with it, and its bytes.
pub struct Piece {
    pub start: bool,
    pub bytes: Seq<u8>,
}

/// The bytes of the pieces from `from` to `to`.
pub open spec fn gathered(pieces: Seq<Piece>, from: int, to: int) -> Seq<u8>
    decreases to - from,
{
    if from >= to {
        Seq::empty()
    } else {
        gathered(pieces, from, to - 1) + pieces[to - 1].bytes
    }
}

/// Whether the pieces from `from` to `to` are a PES packet: the first has the header and the start
/// of the data, the others the rest of it.
pub open spec fn is_unit(pieces: Seq<Piece>, from: int, to: int, u: PesView) -> bool {
    &&& 0 <= from < to <= pieces.len()
    &&& pieces[from].start
    &&& forall|i: int| from < i < to ==> !(#[trigger] pieces[i]).start
    &&& u.data.len() > 0
    &&& exists|h: Seq<u8>| #[trigger]
        pes_start(h, u) && h + u.data == gathered(pieces, from, to) && h.len()
            <= pieces[from].bytes.len()
}

/// Whether pieces are PES packets, one after the other, from one place to the next.
pub open spec fn are_units(pieces: Seq<Piece>, places: Seq<int>, units: Seq<PesView>) -> bool {
    &&& places.len() == units.len() + 1
    &&& places[0] == 0
    &&& places[units.len() as int] == pieces.len()
    &&& forall|k: int|
        0 <= k < units.len() ==> #[trigger] is_unit(pieces, places[k], places[k + 1], units[k])
}

/// The stream after the first `n` pieces.
pub open spec fn after(pieces: Seq<Piece>, n: nat) -> StreamView
    decreases n,
{
    if n == 0 {
        StreamView::fresh()
    } else {
        after(pieces, (n - 1) as nat).step(pieces[n - 1].start, pieces[n - 1].bytes).0
    }
}

/// Whether a PES packet is under way after its first pieces.
spec fn under_way(pieces: Seq<Piece>, from: int, i: int, u: PesView, h: Seq<u8>, done: Seq<PesView>) -> bool {
    let st = after(pieces, i as nat);
    &&& st.seen
    &&& st.packets == done
    &&& st.header == Some((u.stream_id, u.pts, u.dts))
    &&& h + st.buffer == gathered(pieces, from, i)
}

/// What is closed before a PES packet starts.
spec fn closed_by(pieces: Seq<Piece>, n: int, done: Seq<PesView>) -> bool {
    let st = after(pieces, n as nat).closed_packet();
    &&& st.packets == done
    &&& st.buffer.len() == 0
}

#[verifier::rlimit(60)]
proof fn lemma_unit_goes_on(
    pieces: Seq<Piece>,
    from: int,
    to: int,
    i: int,
    u: PesView,
    h: Seq<u8>,
    done: Seq<PesView>,
)
    requires
        0 <= from < i <= to <= pieces.len(),
        forall|k: int| from < k < to ==> !(#[trigger] pieces[k]).start,
        under_way(pieces, from, from + 1, u, h, done),
    ensures
        under_way(pieces, from, i, u, h, done),
    decreases i,
{
    if i > from + 1 {
        lemma_unit_goes_on(pieces, from, to, i - 1, u, h, done);
        assert(!pieces[i - 1].start);
        let st = after(pieces, (i - 1) as nat);
        let next = after(pieces, i as nat);
        assert(next.buffer == st.buffer + pieces[i - 1].bytes);
        assert(h + next.buffer =~= (h + st.buffer) + pieces[i - 1].bytes);
    }
}

#[verifier::rlimit(60)]
proof fn lemma_unit_starts(
    pieces: Seq<Piece>,
    from: int,
    to: int,
    u: PesView,
    h: Seq<u8>,
    done: Seq<PesView>,
)
    requires
        is_unit(pieces, from, to, u),
        pes_start(h, u),
        h + u.data == gathered(pieces, from, to),
        h.len() <= pieces[from].bytes.len(),
        closed_by(pieces, from, done),
    ensures
        under_way(pieces, from, from + 1, u, h, done),
        after(pieces, from as nat).step(true, pieces[from].bytes).1 is None,
{
    let first = pieces[from].bytes;
    lemma_first_bytes(pieces, from, to);
    assert(gathered(pieces, from, from + 1) =~= first) by {
        assert(gathered(pieces, from, from) == Seq::<u8>::empty());
    }
    let rest = first.skip(h.len() as int);
    assert(first =~= h + rest) by {
        assert(first.take(h.len() as int) =~= h) by {
            assert(gathered(pieces, from, to).take(h.len() as int) =~= h);
            assert(gathered(pieces, from, to).take(first.len() as int).take(h.len() as int)
                =~= gathered(pieces, from, to).take(h.len() as int));
        }
    }
    pes_headers_read_back(h, u, rest);
    let base = after(pieces, from as nat).closed_packet();
    assert(base.buffer =~= Seq::empty());
    assert(first[0] == h[0] && first[1] == h[1] && first[2] == h[2]);
    let next = after(pieces, (from + 1) as nat);
    assert(next.buffer =~= rest);
}

/// What the pieces of a PES packet come to starts with its first piece.
proof fn lemma_first_bytes(pieces: Seq<Piece>, from: int, to: int)
    requires
        0 <= from < to,
    ensures
        pieces[from].bytes.len() <= gathered(pieces, from, to).len(),
        gathered(pieces, from, to).take(pieces[from].bytes.len() as int) == pieces[from].bytes,
    decreases to,
{
    let first = pieces[from].bytes;
    if to == from + 1 {
        assert(gathered(pieces, from, from) == Seq::<u8>::empty());
        assert(gathered(pieces, from, to) =~= first);
        assert(first.take(first.len() as int) =~= first);
    } else {
        lemma_first_bytes(pieces, from, to - 1);
        assert(gathered(pieces, from, to).take(first.len() as int) =~= gathered(
            pieces,
            from,
            to - 1,
        ).take(first.len() as int));
    }
}

#[verifier::rlimit(60)]
proof fn lemma_unit_done(pieces: Seq<Piece>, from: int, to: int, u: PesView, done: Seq<PesView>)
    requires
        is_unit(pieces, from, to, u),
        closed_by(pieces, from, done),
    ensures
        closed_by(pieces, to, done.push(u)),
        after(pieces, from as nat).step(true, pieces[from].bytes).1 is None,
{
    let h = choose|h: Seq<u8>| #[trigger]
        pes_start(h, u) && h + u.data == gathered(pieces, from, to) && h.len()
            <= pieces[from].bytes.len();
    lemma_unit_starts(pieces, from, to, u, h, done);
    lemma_unit_goes_on(pieces, from, to, to, u, h, done);
    let st = after(pieces, to as nat);
    assert(st.buffer =~= u.data) by {
        assert((h + st.buffer).skip(h.len() as int) =~= st.buffer);
        assert((h + u.data).skip(h.len() as int) =~= u.data);
    }
    let made = PesView { stream_id: u.stream_id, pts: u.pts, dts: u.dts, data: st.buffer };
    assert(made == u);
}

proof fn lemma_units_done(pieces: Seq<Piece>, places: Seq<int>, units: Seq<PesView>, k: nat)
    requires
        are_units(pieces, places, units),
        k <= units.len(),
    ensures
        closed_by(pieces, places[k as int], units.take(k as int)),
        0 <= places[k as int] <= pieces.len(),
    decreases k,
{
    if k == 0 {
        assert(units.take(0) =~= Seq::empty());
    } else {
        let m = k - 1;
        lemma_units_done(pieces, places, units, m as nat);
        assert(is_unit(pieces, places[m], places[m + 1], units[m]));
        lemma_unit_done(
            pieces,
            places[m],
            places[m + 1],
            units[m],
            units.take(m),
        );
        assert(units.take(m).push(units[m]) =~= units.take(k as int));
    }
}

/// No piece of PES packets is refused.
proof fn lemma_none_refused(
    pieces: Seq<Piece>,
    places: Seq<int>,
    units: Seq<PesView>,
    n: int,
    k: nat,
)
    requires
        are_units(pieces, places, units),
        k <= units.len(),
        0 <= n < places[k as int],
    ensures
        after(pieces, n as nat).step(pieces[n].start, pieces[n].bytes).1 is None,
    decreases k,
{
    if k > 0 {
        let m = k - 1;
        lemma_units_done(pieces, places, units, m as nat);
        assert(is_unit(pieces, places[m], places[m + 1], units[m]));
        if n < places[m] {
            lemma_none_refused(pieces, places, units, n, m as nat);
        } else if n == places[m] {
            lemma_unit_done(
                pieces,
                places[m],
                places[m + 1],
                units[m],
                units.take(m),
            );
        } else {
            assert(!pieces[n].start);
        }
    }
}

// Segments.

/// What a transport packet carries.
pub struct Cell {
    pub pid: int,
    pub start: bool,
    pub bytes: Seq<u8>,
}

/// Whether a segment is made of transport packets that carry the given cells.
pub open spec fn carries_all(s: Seq<u8>, cells: Seq<Cell>) -> bool {
    &&& s.len() == 188 * cells.len()
    &&& forall|i: int|
        0 <= i < cells.len() ==> carries(
            s.subrange(i * 188, i * 188 + 188),
            (#[trigger] cells[i]).pid,
            cells[i].start,
            cells[i].bytes,
        )
}

/// Whether bytes are a program association section with one program, and the identifier of its
/// map.
pub open spec fn says_program(b: Seq<u8>, pid: int) -> bool {
    &&& b.len() >= 17
    &&& b[0] == 0
    &&& b[1] == 0
    &&& b[2] % 16 == 0
    &&& b[3] == 13
    &&& !(b[9] == 0 && b[10] == 0)
    &&& 0 < pid < 0x2000
    &&& b[11] % 32 == pid / 256
    &&& b[12] == pid % 256
}

/// Whether bytes are a program map section with two streams: the type and the identifier of each.
pub open spec fn says_streams(b: Seq<u8>, a: (u8, int), c: (u8, int)) -> bool {
    &&& b.len() >= 27
    &&& b[0] == 0
    &&& b[1] == 2
    &&& b[2] % 16 == 0
    &&& b[3] == 23
    &&& b[11] % 16 == 0
    &&& b[12] == 0
    &&& b[13] == a.0
    &&& b[14] % 32 == a.1 / 256
    &&& b[15] == a.1 % 256
    &&& b[16] % 16 == 0
    &&& b[17] == 0
    &&& b[18] == c.0
    &&& b[19] % 32 == c.1 / 256
    &&& b[20] == c.1 % 256
    &&& b[21] % 16 == 0
    &&& b[22] == 0
}

/// The pieces of a stream among the first `n` cells behind the two tables.
pub open spec fn pieces_of(cells: Seq<Cell>, pid: int, n: nat) -> Seq<Piece>
    decreases n,
{
    if n <= 2 {
        Seq::empty()
    } else if cells[n - 1].pid == pid {
        pieces_of(cells, pid, (n - 1) as nat).push(
            Piece { start: cells[n - 1].start, bytes: cells[n - 1].bytes },
        )
    } else {
        pieces_of(cells, pid, (n - 1) as nat)
    }
}

#[verifier::rlimit(60)]
proof fn lemma_program(b: Seq<u8>, pid: int)
    requires
        says_program(b, pid),
    ensures
        ts::pat_of(b) matches Ok(list) && list.len() == 1 && list[0].1 == pid,
{
    let s = b.skip(1);
    assert(s[0] == b[1] && s[1] == b[2] && s[2] == b[3]);
    assert(s[8] == b[9] && s[9] == b[10] && s[10] == b[11] && s[11] == b[12]);
    assert(ts::length_at(s, 1) == 13);
    assert(bytes::be16(s, 8) != 0);
    let one = Seq::<(u16, u16)>::empty().push((bytes::be16(s, 8), ts::pid_at(s, 10)));
    assert(ts::pid_at(s, 10) == pid);
    assert(ts::pat_programs(s, 12, 12, one) == one);
    assert(ts::pat_programs(s, 8, 12, Seq::empty()) == one);
}

#[verifier::rlimit(60)]
proof fn lemma_streams(b: Seq<u8>, a: (u8, int), c: (u8, int))
    requires
        says_streams(b, a, c),
        0 <= a.1 < 0x2000,
        0 <= c.1 < 0x2000,
    ensures
        ts::pmt_of(b) matches Ok(m) && m.streams == seq![
            PmtStream { stream_type: a.0, pid: a.1 as u16 },
            PmtStream { stream_type: c.0, pid: c.1 as u16 },
        ],
{
    let s = b.skip(1);
    assert(forall|i: int| 0 <= i < 26 ==> s[i] == b[i + 1]);
    assert(ts::length_at(s, 1) == 23);
    assert(ts::length_at(s, 10) == 0);
    assert(ts::length_at(s, 15) == 0);
    assert(ts::length_at(s, 20) == 0);
    let none = Seq::<PmtStream>::empty();
    let one = none.push(PmtStream { stream_type: s[12], pid: ts::pid_at(s, 13) });
    let two = one.push(PmtStream { stream_type: s[17], pid: ts::pid_at(s, 18) });
    assert(ts::pmt_streams(s, 22, 22, two) == two);
    assert(ts::pmt_streams(s, 17, 22, one) == two);
    assert(ts::pmt_streams(s, 12, 22, none) == two);
    assert(two =~= seq![
        PmtStream { stream_type: a.0, pid: a.1 as u16 },
        PmtStream { stream_type: c.0, pid: c.1 as u16 },
    ]);
}

proof fn lemma_after_same(a: Seq<Piece>, b: Seq<Piece>, n: nat)
    requires
        n <= a.len(),
        n <= b.len(),
        forall|k: int| 0 <= k < n ==> a[k] == b[k],
    ensures
        after(a, n) == after(b, n),
    decreases n,
{
    if n > 0 {
        lemma_after_same(a, b, (n - 1) as nat);
    }
}

proof fn lemma_pieces_grow(cells: Seq<Cell>, pid: int, m: nat, n: nat)
    requires
        m <= n,
    ensures
        pieces_of(cells, pid, m).is_prefix_of(pieces_of(cells, pid, n)),
    decreases n,
{
    let a = pieces_of(cells, pid, m);
    if m == n {
        assert(a.take(a.len() as int) =~= a);
    } else {
        lemma_pieces_grow(cells, pid, m, (n - 1) as nat);
        let b = pieces_of(cells, pid, (n - 1) as nat);
        assert(pieces_of(cells, pid, n).take(a.len() as int) =~= b.take(a.len() as int));
    }
}

/// The stream of the first `n` cells.
spec fn stream_after(cells: Seq<Cell>, pid: int, n: nat) -> StreamView {
    after(pieces_of(cells, pid, n), pieces_of(cells, pid, n).len())
}

/// One more cell of a stream is taken, and not refused.
#[verifier::rlimit(60)]
proof fn lemma_stream_step(
    cells: Seq<Cell>,
    pid: int,
    n: nat,
    places: Seq<int>,
    units: Seq<PesView>,
)
    requires
        2 <= n < cells.len(),
        cells[n as int].pid == pid,
        are_units(pieces_of(cells, pid, cells.len()), places, units),
    ensures
        stream_after(cells, pid, n).step(cells[n as int].start, cells[n as int].bytes) == (
            stream_after(cells, pid, n + 1),
            None::<ErrorView>,
        ),
{
    let all = pieces_of(cells, pid, cells.len());
    let now = pieces_of(cells, pid, n);
    let next = pieces_of(cells, pid, n + 1);
    lemma_pieces_grow(cells, pid, n + 1, cells.len());
    assert(next == now.push(Piece { start: cells[n as int].start, bytes: cells[n as int].bytes }));
    assert(all.take(next.len() as int) == next);
    assert forall|k: int| 0 <= k < now.len() implies all[k] == now[k] by {
        assert(all.take(next.len() as int)[k] == next[k]);
    }
    let at = now.len() as int;
    assert(all[at] == all.take(next.len() as int)[at]);
    lemma_after_same(now, all, now.len());
    lemma_after_same(now, next, now.len());
    lemma_none_refused(all, places, units, at, units.len());
}

/// The demuxer after the first `n` cells.
spec fn demux_after(d: DemuxView, cells: Seq<Cell>, v: int, a: int, n: nat) -> bool {
    &&& d.pmt_pid == Some(cells[1].pid as u16)
    &&& d.video_pid == Some(v as u16)
    &&& d.audio_pid == Some(a as u16)
    &&& d.video == stream_after(cells, v, n)
    &&& d.audio == stream_after(cells, a, n)
}

#[verifier::spinoff_prover]
#[verifier::rlimit(60)]
proof fn lemma_media_step(
    d: DemuxView,
    p: TsPacketView,
    cells: Seq<Cell>,
    v: int,
    a: int,
    n: nat,
    vp: Seq<int>,
    vu: Seq<PesView>,
    ap: Seq<int>,
    au: Seq<PesView>,
)
    requires
        2 <= n < cells.len(),
        0 < v < 0x2000,
        0 < a < 0x2000,
        v != a,
        0 < cells[1].pid < 0x2000,
        cells[1].pid != v,
        cells[1].pid != a,
        0 < cells[n as int].pid < 0x2000,
        cells[n as int].pid != cells[1].pid,
        p.pid == cells[n as int].pid,
        p.pusi == cells[n as int].start,
        p.payload == cells[n as int].bytes,
        demux_after(d, cells, v, a, n),
        are_units(pieces_of(cells, v, cells.len()), vp, vu),
        are_units(pieces_of(cells, a, cells.len()), ap, au),
    ensures
        d.step(p).1 is None,
        demux_after(d.step(p).0, cells, v, a, n + 1),
        d.step(p).0.video_codec == d.video_codec,
        d.step(p).0.audio_codec == d.audio_codec,
{
    let c = cells[n as int];
    assert(d.step(p) == d.media_step(p));
    if c.pid == v {
        lemma_stream_step(cells, v, n, vp, vu);
    } else if c.pid == a {
        lemma_stream_step(cells, a, n, ap, au);
    }
    assert(c.pid != v ==> pieces_of(cells, v, n + 1) == pieces_of(cells, v, n));
    assert(c.pid != a ==> pieces_of(cells, a, n + 1) == pieces_of(cells, a, n));
}

proof fn lemma_rest_demuxed(
    s: Seq<u8>,
    d: DemuxView,
    cells: Seq<Cell>,
    v: int,
    a: int,
    n: nat,
    vp: Seq<int>,
    vu: Seq<PesView>,
    ap: Seq<int>,
    au: Seq<PesView>,
) -> (r: DemuxView)
    requires
        carries_all(s, cells),
        2 <= n <= cells.len(),
        0 < v < 0x2000,
        0 < a < 0x2000,
        v != a,
        0 < cells[1].pid < 0x2000,
        cells[1].pid != v,
        cells[1].pid != a,
        forall|i: int|
            2 <= i < cells.len() ==> 0 < (#[trigger] cells[i]).pid && cells[i].pid
                != cells[1].pid,
        demux_after(d, cells, v, a, n),
        are_units(pieces_of(cells, v, cells.len()), vp, vu),
        are_units(pieces_of(cells, a, cells.len()), ap, au),
    ensures
        ts::demux_from(s, n as int, d) == Ok::<DemuxView, ErrorView>(r),
        demux_after(r, cells, v, a, cells.len()),
        r.video_codec == d.video_codec,
        r.audio_codec == d.audio_codec,
    decreases cells.len() - n,
{
    if n < cells.len() {
        let c = cells[n as int];
        let b = s.subrange(n as int * 188, n as int * 188 + 188);
        assert(carries(b, c.pid, c.start, c.bytes));
        assert(b[0] == s[n as int * 188]);
        packets_read_back(b, c.pid, c.start, c.bytes);
        let p = ts::packet_of(b)->Ok_0;
        lemma_media_step(d, p, cells, v, a, n, vp, vu, ap, au);
        lemma_rest_demuxed(s, d.step(p).0, cells, v, a, n + 1, vp, vu, ap, au)
    } else {
        d
    }
}

/// A transport stream with a program association, a program map that lists a video and an audio
/// stream, and then the pieces of their PES packets, however they are cut and mixed, is demuxed to
/// those PES packets: each with its stream, its times and its data, in order.
#[verifier::spinoff_prover]
#[verifier::rlimit(60)]
pub proof fn written_streams_are_demuxed(
    s: Seq<u8>,
    cells: Seq<Cell>,
    video: (u8, int),
    audio: (u8, int),
    vp: Seq<int>,
    vu: Seq<PesView>,
    ap: Seq<int>,
    au: Seq<PesView>,
)
    requires
        carries_all(s, cells),
        cells.len() >= 2,
        video.0 == 0x1B || video.0 == 0x24,
        audio.0 == 0x0F || audio.0 == 0x81,
        0 < video.1 < 0x2000,
        0 < audio.1 < 0x2000,
        video.1 != audio.1,
        cells[0].pid == 0,
        says_program(cells[0].bytes, cells[1].pid),
        says_streams(cells[1].bytes, video, audio) || says_streams(cells[1].bytes, audio, video),
        cells[1].pid != video.1,
        cells[1].pid != audio.1,
        forall|i: int|
            2 <= i < cells.len() ==> 0 < (#[trigger] cells[i]).pid && cells[i].pid
                != cells[1].pid,
        are_units(pieces_of(cells, video.1, cells.len()), vp, vu),
        are_units(pieces_of(cells, audio.1, cells.len()), ap, au),
    ensures
        ts::demuxed_of(s) matches Ok(d) && d.video_packets == vu && d.audio_packets == au
            && d.video_codec == Some(
            if video.0 == 0x1B {
                TsCodec::H264
            } else {
                TsCodec::H265
            },
        ) && d.audio_codec == Some(
            if audio.0 == 0x0F {
                TsCodec::Aac
            } else {
                TsCodec::Ac3
            },
        ),
{
    let d0 = DemuxView::fresh();
    let b0 = s.subrange(0, 188);
    let b1 = s.subrange(188, 376);
    assert(carries(b0, cells[0].pid, cells[0].start, cells[0].bytes));
    assert(carries(b1, cells[1].pid, cells[1].start, cells[1].bytes));
    assert(b0[0] == s[0] && b1[0] == s[188]);
    packets_read_back(b0, cells[0].pid, cells[0].start, cells[0].bytes);
    packets_read_back(b1, cells[1].pid, cells[1].start, cells[1].bytes);
    let p0 = ts::packet_of(b0)->Ok_0;
    let p1 = ts::packet_of(b1)->Ok_0;
    lemma_program(cells[0].bytes, cells[1].pid);
    let d1 = d0.step(p0).0;
    assert(d0.step(p0).1 is None);
    assert(d1.pmt_pid == Some(cells[1].pid as u16));
    let d2 = d1.step(p1).0;
    lemma_tables(d1, p1, cells[1].bytes, video, audio);
    assert(demux_after(d2, cells, video.1, audio.1, 2)) by {
        assert(pieces_of(cells, video.1, 2) == Seq::<Piece>::empty());
        assert(pieces_of(cells, audio.1, 2) == Seq::<Piece>::empty());
    }
    let r = lemma_rest_demuxed(s, d2, cells, video.1, audio.1, 2, vp, vu, ap, au);
    assert(ts::demux_from(s, 1, d1) == ts::demux_from(s, 2, d2));
    assert(ts::demux_from(s, 0, d0) == ts::demux_from(s, 1, d1));
    let va = pieces_of(cells, video.1, cells.len());
    let aa = pieces_of(cells, audio.1, cells.len());
    lemma_units_done(va, vp, vu, vu.len());
    lemma_units_done(aa, ap, au, au.len());
    assert(vu.take(vu.len() as int) =~= vu);
    assert(au.take(au.len() as int) =~= au);
}

/// The demuxer after the program map.
#[verifier::rlimit(60)]
proof fn lemma_tables(d: DemuxView, p: TsPacketView, b: Seq<u8>, video: (u8, int), audio: (u8, int))
    requires
        d.pmt_pid == Some(p.pid),
        p.pid != 0,
        p.payload == b,
        d.video_pid is None,
        d.audio_pid is None,
        video.0 == 0x1B || video.0 == 0x24,
        audio.0 == 0x0F || audio.0 == 0x81,
        0 < video.1 < 0x2000,
        0 < audio.1 < 0x2000,
        says_streams(b, video, audio) || says_streams(b, audio, video),
    ensures
        ({
            let (n, e) = d.step(p);
            &&& e is None
            &&& n.pmt_pid == d.pmt_pid
            &&& n.video_pid == Some(video.1 as u16)
            &&& n.audio_pid == Some(audio.1 as u16)
            &&& n.video == d.video
            &&& n.audio == d.audio
            &&& n.video_codec == Some(
                if video.0 == 0x1B {
                    TsCodec::H264
                } else {
                    TsCodec::H265
                },
            )
            &&& n.audio_codec == Some(
                if audio.0 == 0x0F {
                    TsCodec::Aac
                } else {
                    TsCodec::Ac3
                },
            )
        }),
{
    if says_streams(b, video, audio) {
        lemma_streams(b, video, audio);
    } else {
        lemma_streams(b, audio, video);
    }
    let m = ts::pmt_of(b)->Ok_0;
    assert(m.streams.len() == 2);
    let one = d.with_streams(m.streams, 1);
    let none = d.with_streams(m.streams, 0);
    assert(none == d);
    assert(d.with_streams(m.streams, 2).pmt_pid == d.pmt_pid);
}

} // verus!
