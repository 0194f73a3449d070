//! Which bytes of the samples of a segment a rewrite touches.

use crate::bytes;
use crate::drm::sample_cryptor;
use crate::drm::sample_cryptor::CryptorView;
use crate::drm::scheme::EncryptionScheme;
use crate::error::ErrorView;
use crate::media::box_type;
use crate::media::cmaf;
use crate::media::cmaf::{SencEntryView, SencView, SubsampleEntry, TrunEntry, TrunView};
use crate::media::fragment;
use crate::media::round_trip;
use crate::media::segment;
use crate::media::segment::{EditView, SegmentRewriteParams, SpanView};
use vstd::prelude::*;

verus! {

// Where things stand.

/// How many bytes the first `j` subsamples take up, clear and encrypted ones together.
pub open spec fn range_start(list: Seq<SubsampleEntry>, j: nat) -> nat
    decreases j,
{
    if j == 0 {
        0
    } else {
        range_start(list, (j - 1) as nat) + list[j - 1].clear_bytes as nat
            + list[j - 1].encrypted_bytes as nat
    }
}

/// How many encrypted bytes the first `j` subsamples have.
pub open spec fn encrypted_before(list: Seq<SubsampleEntry>, j: nat) -> nat
    decreases j,
{
    if j == 0 {
        0
    } else {
        encrypted_before(list, (j - 1) as nat) + list[j - 1].encrypted_bytes as nat
    }
}

/// The size of sample `i` of a track run; none is zero bytes long.
pub open spec fn run_size(run: Seq<TrunEntry>, i: int) -> nat {
    if 0 <= i < run.len() && run[i].sample_size is Some {
        run[i].sample_size->0 as nat
    } else {
        0
    }
}

/// Where sample `i` of a track run starts in the sample data.
pub open spec fn run_start(run: Seq<TrunEntry>, i: nat) -> nat
    decreases i,
{
    if i == 0 {
        0
    } else {
        run_start(run, (i - 1) as nat) + run_size(run, i - 1)
    }
}

/// Sample `i` of the sample data.
pub open spec fn run_sample(run: Seq<TrunEntry>, data: Seq<u8>, i: int) -> Seq<u8> {
    data.subrange(run_start(run, i as nat) as int, (run_start(run, i as nat) + run_size(run, i)) as int)
}

// What is done to a sample.

/// Whether the clear bytes of subsample `j` are the same in `x` and `y`, and the cipher was
/// applied to the encrypted bytes behind them, after those of the subsamples before.
pub open spec fn range_crypted(
    c: CryptorView,
    forward: bool,
    iv: Seq<u8>,
    list: Seq<SubsampleEntry>,
    j: int,
    x: Seq<u8>,
    y: Seq<u8>,
) -> bool {
    let start = range_start(list, j as nat) as int;
    let mid = start + list[j].clear_bytes;
    let end = mid + list[j].encrypted_bytes;
    &&& end <= x.len()
    &&& y.subrange(start, mid) == x.subrange(start, mid)
    &&& y.subrange(mid, end) == c.range(
        forward,
        iv,
        x.subrange(mid, end),
        encrypted_before(list, j as nat) as int,
    )
}

/// Whether `y` is the sample `x` with the cipher applied to the encrypted bytes of its
/// subsamples and every other byte as it was; without subsamples, to all of it.
pub open spec fn sample_crypted(
    c: CryptorView,
    forward: bool,
    iv: Seq<u8>,
    subs: Option<Seq<SubsampleEntry>>,
    x: Seq<u8>,
    y: Seq<u8>,
) -> bool {
    &&& y.len() == x.len()
    &&& match subs {
        None => y == c.range(forward, iv, x, 0),
        Some(list) => {
            let end = range_start(list, list.len()) as int;
            &&& end <= x.len()
            &&& forall|j: int|
                0 <= j < list.len() ==> #[trigger] range_crypted(c, forward, iv, list, j, x, y)
            &&& y.subrange(end, y.len() as int) == x.subrange(end, x.len() as int)
        },
    }
}

/// Whether `iv` is the IV of a sample: that of its senc entry, or the constant one where the
/// entry has none. CBCS takes sixteen bytes: zeros are put in front of a shorter IV, and a
/// longer one is cut.
pub open spec fn sample_iv(
    scheme: EncryptionScheme,
    entry: SencEntryView,
    constant_iv: Option<Seq<u8>>,
    iv: Seq<u8>,
) -> bool {
    let given = if entry.iv.len() > 0 {
        entry.iv
    } else {
        constant_iv->0
    };
    &&& entry.iv.len() == 0 ==> constant_iv is Some
    &&& if scheme is Cbcs && given.len() < 16 {
        &&& iv.len() == 16
        &&& iv.subrange(16 - given.len(), 16) == given
        &&& forall|k: int| 0 <= k < 16 - given.len() ==> #[trigger] iv[k] == 0
    } else if scheme is Cbcs {
        iv == given.subrange(0, 16)
    } else {
        iv == given
    }
}

/// Whether sample `i` of `data` was made from that of `source`, under the IV and with the
/// subsamples of its senc entry.
pub open spec fn entry_crypted(
    c: CryptorView,
    forward: bool,
    entries: Seq<SencEntryView>,
    constant_iv: Option<Seq<u8>>,
    run: Seq<TrunEntry>,
    i: int,
    source: Seq<u8>,
    data: Seq<u8>,
) -> bool {
    &&& run_start(run, i as nat) + run_size(run, i) <= source.len()
    &&& exists|iv: Seq<u8>| #[trigger]
        sample_iv(c.scheme, entries[i], constant_iv, iv) && sample_crypted(
            c,
            forward,
            iv,
            entries[i].subsamples,
            run_sample(run, source, i),
            run_sample(run, data, i),
        )
}

/// Whether `data` is the sample data `source` with every sample of the senc entries encrypted
/// (`forward`) or decrypted, and what is behind the samples as it was.
pub open spec fn samples_crypted(
    c: CryptorView,
    forward: bool,
    entries: Seq<SencEntryView>,
    constant_iv: Option<Seq<u8>>,
    run: Seq<TrunEntry>,
    source: Seq<u8>,
    data: Seq<u8>,
) -> bool {
    &&& data.len() == source.len()
    &&& forall|i: int|
        0 <= i < entries.len() ==> #[trigger] entry_crypted(
            c,
            forward,
            entries,
            constant_iv,
            run,
            i,
            source,
            data,
        )
    &&& run_start(run, entries.len()) <= source.len()
    &&& data.subrange(run_start(run, entries.len()) as int, data.len() as int) == source.subrange(
        run_start(run, entries.len()) as int,
        source.len() as int,
    )
}

// Samples.

proof fn lemma_pairs(list: Seq<SubsampleEntry>, j: nat)
    requires
        j <= list.len(),
    ensures
        sample_cryptor::sub_start(segment::pairs_of(Some(list))->0, j) == range_start(list, j),
        sample_cryptor::sub_used(segment::pairs_of(Some(list))->0, j) == encrypted_before(list, j),
    decreases j,
{
    if j > 0 {
        lemma_pairs(list, (j - 1) as nat);
    }
}

proof fn lemma_start_grows(list: Seq<SubsampleEntry>, i: nat, j: nat)
    requires
        i <= j,
    ensures
        range_start(list, i) <= range_start(list, j),
    decreases j,
{
    if i < j {
        lemma_start_grows(list, i, (j - 1) as nat);
    }
}

/// What the first `n` subsamples come to.
#[verifier::rlimit(60)]
proof fn lemma_ranges(
    c: CryptorView,
    forward: bool,
    iv: Seq<u8>,
    list: Seq<SubsampleEntry>,
    n: nat,
    x: Seq<u8>,
    y: Seq<u8>,
)
    requires
        n <= list.len(),
        range_start(list, n) <= x.len(),
        y.len() == x.len(),
        y.subrange(0, range_start(list, n) as int) == c.ranges(
            forward,
            iv,
            x,
            segment::pairs_of(Some(list))->0,
            n,
        ),
    ensures
        forall|j: int|
            0 <= j < n ==> #[trigger] range_crypted(c, forward, iv, list, j, x, y),
    decreases n,
{
    if n > 0 {
        let m = (n - 1) as nat;
        let pairs = segment::pairs_of(Some(list))->0;
        let start = range_start(list, m) as int;
        let mid = start + list[m as int].clear_bytes;
        let end = mid + list[m as int].encrypted_bytes;
        lemma_pairs(list, m);
        lemma_pairs(list, n);
        let whole = c.ranges(forward, iv, x, pairs, n);
        let before = c.ranges(forward, iv, x, pairs, m);
        let part = c.range(
            forward,
            iv,
            x.subrange(mid, end),
            encrypted_before(list, m) as int,
        );
        sample_cryptor::range_keeps_length(
            c,
            forward,
            iv,
            x.subrange(mid, end),
            encrypted_before(list, m) as int,
        );
        assert(pairs[m as int] == (list[m as int].clear_bytes as u32, list[m as int].encrypted_bytes));
        assert(whole == before + x.subrange(start, mid) + part);
        assert(before.len() == start);
        assert(y.subrange(0, start) =~= whole.subrange(0, start));
        assert(whole.subrange(0, start) =~= before);
        assert(y.subrange(start, mid) =~= whole.subrange(start, mid));
        assert(whole.subrange(start, mid) =~= x.subrange(start, mid));
        assert(y.subrange(mid, end) =~= whole.subrange(mid, end));
        assert(whole.subrange(mid, end) =~= part);
        lemma_ranges(c, forward, iv, list, m, x, y);
    }
}

/// What comes of a sample.
#[verifier::rlimit(60)]
proof fn lemma_sample(
    c: CryptorView,
    forward: bool,
    iv: Seq<u8>,
    subs: Option<Seq<SubsampleEntry>>,
    x: Seq<u8>,
    y: Seq<u8>,
)
    requires
        c.crypted(forward, iv, x, segment::pairs_of(subs)) == Ok::<Seq<u8>, ErrorView>(y),
    ensures
        sample_crypted(c, forward, iv, subs, x, y),
{
    sample_cryptor::crypted_keeps_length(c, forward, iv, x, segment::pairs_of(subs));
    if let Some(list) = subs {
        let pairs = segment::pairs_of(subs)->0;
        let end = range_start(list, list.len()) as int;
        lemma_pairs(list, list.len());
        let before = c.ranges(forward, iv, x, pairs, pairs.len());
        assert(y == before + x.subrange(end, x.len() as int));
        assert(before.len() == end);
        assert(y.subrange(0, end) =~= before);
        lemma_ranges(c, forward, iv, list, list.len(), x, y);
        assert(y.subrange(end, y.len() as int) =~= x.subrange(end, x.len() as int));
    }
}

// Track runs.

proof fn lemma_sizes(run: Seq<TrunEntry>, i: int, got: Seq<u32>)
    requires
        0 <= i == got.len(),
        i <= run.len(),
        forall|k: int| 0 <= k < i ==> run[k].sample_size == Some(#[trigger] got[k]),
    ensures
        segment::sizes_from(run, i, got) matches Ok(sizes) ==> sizes.len() == run.len() && (forall|
            k: int,
        |
            0 <= k < run.len() ==> run[k].sample_size == Some(#[trigger] sizes[k])),
    decreases run.len() - i,
{
    if i < run.len() {
        if let Some(size) = run[i].sample_size {
            lemma_sizes(run, i + 1, got.push(size));
        }
    }
}

/// Whether the list of sizes is that of the run.
spec fn sizes_of(run: Seq<TrunEntry>, sizes: Seq<u32>) -> bool {
    forall|i: int| #[trigger] segment::size_at(sizes, i) == run_size(run, i)
}

proof fn lemma_sizes_of(run: Seq<TrunEntry>, sizes: Seq<u32>)
    requires
        segment::sizes_from(run, 0, Seq::empty()) == Ok::<Seq<u32>, ErrorView>(sizes),
    ensures
        sizes_of(run, sizes),
{
    lemma_sizes(run, 0, Seq::empty());
    assert forall|i: int| #[trigger] segment::size_at(sizes, i) == run_size(run, i) by {
        if 0 <= i < run.len() {
            assert(run[i].sample_size == Some(sizes[i]));
        }
    }
}

proof fn lemma_run_grows(run: Seq<TrunEntry>, i: nat, j: nat)
    requires
        i <= j,
    ensures
        run_start(run, i) <= run_start(run, j),
    decreases j,
{
    if i < j {
        lemma_run_grows(run, i, (j - 1) as nat);
    }
}

proof fn lemma_padded(scheme: EncryptionScheme, entry: SencEntryView, constant_iv: Option<Seq<u8>>, i: nat)
    requires
        segment::iv_of(i, entry, constant_iv) is Ok,
    ensures
        sample_iv(
            scheme,
            entry,
            constant_iv,
            segment::decryption_iv(scheme, segment::iv_of(i, entry, constant_iv)->Ok_0),
        ),
{
    let given = segment::iv_of(i, entry, constant_iv)->Ok_0;
    let iv = segment::decryption_iv(scheme, given);
    if scheme is Cbcs && given.len() < 16 {
        assert(iv.subrange(16 - given.len(), 16) =~= given);
    }
}

/// What comes of decrypting the samples from `i` on.
#[verifier::rlimit(60)]
proof fn lemma_decrypted(
    c: CryptorView,
    constant_iv: Option<Seq<u8>>,
    entries: Seq<SencEntryView>,
    sizes: Seq<u32>,
    run: Seq<TrunEntry>,
    data: Seq<u8>,
    i: int,
    got: Seq<u8>,
    out: Seq<u8>,
)
    requires
        0 <= i <= entries.len(),
        sizes_of(run, sizes),
        got.len() == run_start(run, i as nat),
        got.len() <= data.len(),
        segment::decrypt_from(c, constant_iv, entries, sizes, data, i, got) == Ok::<
            Seq<u8>,
            ErrorView,
        >(out),
    ensures
        out.len() == data.len(),
        out.subrange(0, got.len() as int) == got,
        run_start(run, entries.len()) <= data.len(),
        forall|k: int|
            i <= k < entries.len() ==> #[trigger] entry_crypted(
                c,
                false,
                entries,
                constant_iv,
                run,
                k,
                data,
                out,
            ),
        out.subrange(run_start(run, entries.len()) as int, out.len() as int) == data.subrange(
            run_start(run, entries.len()) as int,
            data.len() as int,
        ),
    decreases entries.len() - i,
{
    let at = got.len() as int;
    let size = segment::size_at(sizes, i);
    if i == entries.len() {
        assert(out.subrange(0, at) =~= got);
        assert(out.subrange(at, out.len() as int) =~= data.subrange(at, data.len() as int));
    } else {
        assert(size == run_size(run, i));
        let part = data.subrange(at, at + size);
        let iv = segment::decryption_iv(
            c.scheme,
            segment::iv_of(i as nat, entries[i], constant_iv)->Ok_0,
        );
        let x = c.crypted(false, iv, part, segment::pairs_of(entries[i].subsamples))->Ok_0;
        lemma_padded(c.scheme, entries[i], constant_iv, i as nat);
        lemma_sample(c, false, iv, entries[i].subsamples, part, x);
        lemma_decrypted(c, constant_iv, entries, sizes, run, data, i + 1, got + x, out);
        let next = got + x;
        assert(out.subrange(0, at) =~= out.subrange(0, next.len() as int).subrange(0, at));
        assert(next.subrange(0, at) =~= got);
        assert(run_sample(run, data, i) == part);
        assert(run_sample(run, out, i) =~= out.subrange(0, next.len() as int).subrange(at, at + size));
        assert(next.subrange(at, at + size) =~= x);
        assert(entry_crypted(c, false, entries, constant_iv, run, i, data, out));
    }
}

/// Whether the spans of samples are those of a track run and of a list of entries.
spec fn spans_of(spans: Seq<SpanView>, entries: Seq<SencEntryView>, run: Seq<TrunEntry>) -> bool {
    &&& spans.len() == entries.len()
    &&& forall|i: int|
        0 <= i < spans.len() ==> (#[trigger] spans[i]).size == run_size(run, i)
            && spans[i].subsamples == entries[i].subsamples
}

/// What comes of encrypting the samples from `i` on.
#[verifier::rlimit(60)]
proof fn lemma_encrypted(
    c: CryptorView,
    number: u32,
    spans: Seq<SpanView>,
    entries: Seq<SencEntryView>,
    run: Seq<TrunEntry>,
    data: Seq<u8>,
    i: int,
    got: Seq<u8>,
    made: Seq<SencEntryView>,
    out: Seq<u8>,
)
    requires
        c.scheme.encrypts(),
        0 <= i <= spans.len(),
        spans_of(spans, entries, run),
        made.len() == i,
        got.len() == run_start(run, i as nat),
        got.len() <= data.len(),
        segment::encrypt_from(c, number, spans, data, i, got, made) == Ok::<
            (Seq<u8>, Seq<SencEntryView>),
            ErrorView,
        >((out, entries)),
    ensures
        out.len() == data.len(),
        out.subrange(0, got.len() as int) == got,
        made.is_prefix_of(entries),
        run_start(run, entries.len()) <= data.len(),
        forall|k: int|
            i <= k < entries.len() ==> #[trigger] entry_crypted(
                c,
                true,
                entries,
                None,
                run,
                k,
                data,
                out,
            ),
        out.subrange(run_start(run, entries.len()) as int, out.len() as int) == data.subrange(
            run_start(run, entries.len()) as int,
            data.len() as int,
        ),
    decreases spans.len() - i,
{
    let at = got.len() as int;
    if i == spans.len() {
        assert(out.subrange(0, at) =~= got);
        assert(out.subrange(at, out.len() as int) =~= data.subrange(at, data.len() as int));
        assert(made =~= entries);
    } else {
        let size = spans[i].size;
        let part = data.subrange(at, at + size);
        let iv = c.fresh_iv(number, i as u32);
        let entry = SencEntryView { iv, subsamples: spans[i].subsamples };
        let x = c.crypted(true, iv, part, segment::pairs_of(spans[i].subsamples))->Ok_0;
        lemma_sample(c, true, iv, spans[i].subsamples, part, x);
        lemma_encrypted(
            c,
            number,
            spans,
            entries,
            run,
            data,
            i + 1,
            got + x,
            made.push(entry),
            out,
        );
        let next = got + x;
        assert(entries[i] == made.push(entry)[i]);
        assert(made =~= made.push(entry).subrange(0, i));
        assert(made =~= entries.subrange(0, i));
        assert(out.subrange(0, at) =~= out.subrange(0, next.len() as int).subrange(0, at));
        assert(next.subrange(0, at) =~= got);
        assert(run_sample(run, data, i) == part);
        assert(run_sample(run, out, i) =~= out.subrange(0, next.len() as int).subrange(at, at + size));
        assert(next.subrange(at, at + size) =~= x);
        assert(iv.len() == 8 || iv.len() == 16);
        if c.scheme is Cbcs {
            assert(iv.subrange(0, 16) =~= iv);
        }
        assert(sample_iv(c.scheme, entries[i], None, iv));
        assert(entry_crypted(c, true, entries, None, run, i, data, out));
    }
}

// Segments.

/// The cipher of the source, with its key as it was given.
pub open spec fn source_cipher(p: SegmentRewriteParams) -> CryptorView {
    CryptorView { scheme: p.source_scheme, key: p.source_key->0.key@, pattern: p.source_pattern }
}

/// The cipher of the target, with its key as it was given.
pub open spec fn target_cipher(p: SegmentRewriteParams) -> CryptorView {
    CryptorView { scheme: p.target_scheme, key: p.target_key->0.key@, pattern: p.target_pattern }
}

/// Whether the clear bytes of the subsamples of every sample are the same in `source` and `data`.
pub open spec fn clear_bytes_stay(
    entries: Seq<SencEntryView>,
    run: Seq<TrunEntry>,
    source: Seq<u8>,
    data: Seq<u8>,
) -> bool {
    forall|i: int, j: int|
        0 <= i < entries.len() && entries[i].subsamples is Some && 0 <= j
            < entries[i].subsamples->0.len() ==> #[trigger] clear_range_stays(
            entries[i].subsamples->0,
            run_start(run, i as nat),
            j,
            source,
            data,
        )
}

/// Whether the clear bytes of subsample `j` of a sample that starts at `at` are the same.
pub open spec fn clear_range_stays(
    list: Seq<SubsampleEntry>,
    at: nat,
    j: int,
    source: Seq<u8>,
    data: Seq<u8>,
) -> bool {
    let start = (at + range_start(list, j as nat)) as int;
    let mid = start + list[j].clear_bytes;
    data.subrange(start, mid) == source.subrange(start, mid)
}

proof fn lemma_clear_stays(
    c: CryptorView,
    forward: bool,
    entries: Seq<SencEntryView>,
    constant_iv: Option<Seq<u8>>,
    run: Seq<TrunEntry>,
    source: Seq<u8>,
    data: Seq<u8>,
    i: int,
    j: int,
)
    requires
        samples_crypted(c, forward, entries, constant_iv, run, source, data),
        0 <= i < entries.len(),
        entries[i].subsamples is Some,
        0 <= j < entries[i].subsamples->0.len(),
    ensures
        clear_range_stays(
            entries[i].subsamples->0,
            run_start(run, i as nat),
            j,
            source,
            data,
        ),
{
    let list = entries[i].subsamples->0;
    let at = run_start(run, i as nat) as int;
    let from = range_start(list, j as nat) as int;
    let to = from + list[j].clear_bytes;
    assert(entry_crypted(c, forward, entries, constant_iv, run, i, source, data));
    let x = run_sample(run, source, i);
    let y = run_sample(run, data, i);
    let iv = choose|iv: Seq<u8>| #[trigger]
        sample_iv(c.scheme, entries[i], constant_iv, iv) && sample_crypted(
            c,
            forward,
            iv,
            entries[i].subsamples,
            x,
            y,
        );
    assert(range_crypted(c, forward, iv, list, j, x, y));
    assert(x.subrange(from, to) =~= source.subrange(at + from, at + to));
    assert(y.subrange(from, to) =~= data.subrange(at + from, at + to));
}

proof fn lemma_same_ranges(
    a: Seq<SencEntryView>,
    b: Seq<SencEntryView>,
    c: CryptorView,
    d: CryptorView,
    constant_iv: Option<Seq<u8>>,
    run: Seq<TrunEntry>,
    source: Seq<u8>,
    plain: Seq<u8>,
    data: Seq<u8>,
)
    requires
        a.len() == b.len(),
        forall|i: int| 0 <= i < a.len() ==> (#[trigger] a[i]).subsamples == b[i].subsamples,
        samples_crypted(c, false, a, constant_iv, run, source, plain),
        samples_crypted(d, true, b, None, run, plain, data),
    ensures
        clear_bytes_stay(a, run, source, data),
{
    assert forall|i: int, j: int|
        0 <= i < a.len() && a[i].subsamples is Some && 0 <= j
            < a[i].subsamples->0.len() implies #[trigger] clear_range_stays(
        a[i].subsamples->0,
        run_start(run, i as nat),
        j,
        source,
        data,
    ) by {
        assert(a[i].subsamples == b[i].subsamples);
        lemma_clear_stays(c, false, a, constant_iv, run, source, plain, i, j);
        lemma_clear_stays(d, true, b, None, run, plain, data, i, j);
    }
}

/// Decrypting a segment applies the cipher to the encrypted bytes of the subsamples of each
/// sample, under the IV of that sample, and leaves every other byte of the sample data as it was.
#[verifier::rlimit(60)]
pub proof fn decrypting_applies_the_cipher_to_encrypted_bytes(
    s: Seq<u8>,
    p: SegmentRewriteParams,
    moof: Seq<u8>,
    mdat: Seq<u8>,
    senc: SencView,
    trun: TrunView,
    out: Seq<u8>,
)
    requires
        p.source_scheme.encrypts(),
        !p.target_scheme.encrypts(),
        segment::segment_parts(s) == Ok::<(Seq<u8>, Seq<u8>), ErrorView>((moof, mdat)),
        segment::encryption_info(moof, p.source_iv_size) == Ok::<(SencView, TrunView), ErrorView>(
            (senc, trun),
        ),
        segment::rewritten(s, p) == Ok::<Seq<u8>, ErrorView>(out),
        segment::sizes_fit(s, out),
    ensures
        segment::segment_parts(out) matches Ok((_, data)) && samples_crypted(
            source_cipher(p),
            false,
            senc.entries,
            cmaf::opt_bytes(p.constant_iv),
            trun.entries,
            mdat,
            data,
        ) && clear_bytes_stay(senc.entries, trun.entries, mdat, data),
{
    let o = segment::opened(s, p)->Ok_0;
    lemma_sizes_of(trun.entries, o.sizes);
    lemma_decrypted(
        source_cipher(p),
        cmaf::opt_bytes(p.constant_iv),
        senc.entries,
        o.sizes,
        trun.entries,
        mdat,
        0,
        Seq::empty(),
        o.data,
    );
    segment::lemma_written_payload(moof, EditView::Strip, o.data, out);
    assert forall|i: int, j: int|
        0 <= i < senc.entries.len() && senc.entries[i].subsamples is Some && 0 <= j
            < senc.entries[i].subsamples->0.len() implies #[trigger] clear_range_stays(
        senc.entries[i].subsamples->0,
        run_start(trun.entries, i as nat),
        j,
        mdat,
        o.data,
    ) by {
        lemma_clear_stays(
            source_cipher(p),
            false,
            senc.entries,
            cmaf::opt_bytes(p.constant_iv),
            trun.entries,
            mdat,
            o.data,
            i,
            j,
        );
    }
}

/// What a segment with new sample encryption says of it.
#[verifier::rlimit(60)]
proof fn lemma_new_senc(
    moof: Seq<u8>,
    edit: EditView,
    old_iv: Option<u8>,
    new_iv: u8,
    data: Seq<u8>,
    out: Seq<u8>,
)
    requires
        fragment::well_boxed(moof),
        moof.len() <= u64::MAX,
        match edit {
            EditView::Replace(_, _) => old_iv is Some && segment::encryption_info(moof, old_iv->0)
                is Ok,
            EditView::Inject(_) => old_iv is None && segment::run_info(moof) is Ok
                && fragment::tracks_without(moof, box_type::SENC@),
            EditView::Strip => false,
        },
        fragment::readable(edit, new_iv),
        segment::written(segment::edited_moof(moof, edit), data) == Ok::<Seq<u8>, ErrorView>(out),
        segment::boxes_fit(data, out),
    ensures
        segment::segment_parts(out) matches Ok((m, d)) && d == data && segment::encryption_info(
            m,
            new_iv,
        ) == Ok::<(SencView, TrunView), ErrorView>(
            (
                fragment::senc_info(fragment::entries_of(edit).0, fragment::entries_of(edit).1),
                match old_iv {
                    Some(iv_size) => (segment::encryption_info(moof, iv_size)->Ok_0).1,
                    None => segment::run_info(moof)->Ok_0,
                },
            ),
        ),
{
    let payload = segment::moof_children(moof, 0, edit, Seq::empty())->Ok_0;
    let box_of_moof = cmaf::boxed(box_type::MOOF@, payload);
    let box_of_data = cmaf::boxed(box_type::MDAT@, data);
    assert(segment::edited_moof(moof, edit) == Ok::<Seq<u8>, ErrorView>(box_of_moof));
    assert(out == box_of_moof + box_of_data);
    assert(box_of_moof.len() == payload.len() + 8);
    assert(box_of_data.len() == data.len() + 8);
    fragment::edited_fragment_reads_back(moof, edit, old_iv, new_iv, payload);
    segment::written_segment_reads_back(payload, data);
}

/// Encrypting a clear segment applies the cipher to all of each sample, under the IV that the new
/// senc box has for it, and leaves what is behind the samples as it was.
#[verifier::spinoff_prover]
#[verifier::rlimit(60)]
pub proof fn encrypting_applies_the_cipher_to_whole_samples(
    s: Seq<u8>,
    p: SegmentRewriteParams,
    moof: Seq<u8>,
    mdat: Seq<u8>,
    trun: TrunView,
    out: Seq<u8>,
)
    requires
        !p.source_scheme.encrypts(),
        p.target_scheme.encrypts(),
        segment::tidy(s, p),
        segment::segment_parts(s) == Ok::<(Seq<u8>, Seq<u8>), ErrorView>((moof, mdat)),
        moof.len() <= u64::MAX,
        segment::run_info(moof) == Ok::<TrunView, ErrorView>(trun),
        segment::rewritten(s, p) == Ok::<Seq<u8>, ErrorView>(out),
        segment::sizes_fit(s, out),
    ensures
        segment::segment_parts(out) matches Ok((m, data)) && segment::encryption_info(
            m,
            segment::fresh_iv_size(p.target_scheme),
        ) matches Ok((senc, run)) && run == trun && senc.entries.len() == trun.entries.len() && (
        forall|i: int| 0 <= i < senc.entries.len() ==> (#[trigger] senc.entries[i]).subsamples
            is None) && samples_crypted(
            target_cipher(p),
            true,
            senc.entries,
            None,
            trun.entries,
            mdat,
            data,
        ),
{
    let c = target_cipher(p);
    let sizes = segment::sizes_from(trun.entries, 0, Seq::empty())->Ok_0;
    let spans = segment::whole_spans(sizes);
    let (data, entries) = segment::encrypt_from(
        c,
        p.segment_number,
        spans,
        mdat,
        0,
        Seq::empty(),
        Seq::empty(),
    )->Ok_0;
    lemma_sizes(trun.entries, 0, Seq::empty());
    lemma_made(c, p.segment_number, spans, mdat, 0, Seq::empty(), Seq::empty());
    assert forall|i: int| 0 <= i < spans.len() implies (#[trigger] spans[i]).size == run_size(
        trun.entries,
        i,
    ) && spans[i].subsamples == entries[i].subsamples by {
        assert(trun.entries[i].sample_size == Some(sizes[i]));
    }
    assert(run_start(trun.entries, 0) == 0);
    lemma_encrypted(
        c,
        p.segment_number,
        spans,
        entries,
        trun.entries,
        mdat,
        0,
        Seq::empty(),
        Seq::empty(),
        data,
    );
    let edit = EditView::Inject(entries);
    let size = segment::fresh_iv_size(p.target_scheme);
    assert forall|i: int| 0 <= i < entries.len() implies round_trip::entry_fits(
        #[trigger] entries[i],
        false,
        size,
    ) by {
        assert(spans[i].subsamples == entries[i].subsamples);
    }
    assert(fragment::readable(edit, size));
    lemma_new_senc(moof, edit, None, size, data, out);
}

/// The senc entries that encrypting makes.
proof fn lemma_made(
    c: CryptorView,
    number: u32,
    spans: Seq<SpanView>,
    data: Seq<u8>,
    i: int,
    got: Seq<u8>,
    made: Seq<SencEntryView>,
)
    requires
        c.scheme.encrypts(),
        0 <= i <= spans.len(),
        made.len() == i,
        forall|k: int|
            0 <= k < i ==> (#[trigger] made[k]).subsamples == spans[k].subsamples
                && made[k].iv.len() == segment::fresh_iv_size(c.scheme),
    ensures
        segment::encrypt_from(c, number, spans, data, i, got, made) matches Ok((_, entries))
            ==> entries.len() == spans.len() && (forall|k: int|
            0 <= k < spans.len() ==> (#[trigger] entries[k]).subsamples == spans[k].subsamples
                && entries[k].iv.len() == segment::fresh_iv_size(c.scheme)),
    decreases spans.len() - i,
{
    if i < spans.len() && got.len() + spans[i].size <= data.len() {
        let iv = c.fresh_iv(number, i as u32);
        let part = data.subrange(got.len() as int, got.len() + spans[i].size);
        if let Ok(x) = c.crypted(true, iv, part, segment::pairs_of(spans[i].subsamples)) {
            lemma_made(
                c,
                number,
                spans,
                data,
                i + 1,
                got + x,
                made.push(SencEntryView { iv, subsamples: spans[i].subsamples }),
            );
        }
    }
}

/// Encrypting a segment anew decrypts the encrypted bytes of the subsamples of each sample and
/// applies the cipher of the target to the same bytes, under the IV that the new senc box has for
/// the sample. The subsamples stay, and so does every clear byte of the sample data.
#[verifier::spinoff_prover]
#[verifier::rlimit(60)]
pub proof fn reencrypting_applies_the_ciphers_to_encrypted_bytes(
    s: Seq<u8>,
    p: SegmentRewriteParams,
    moof: Seq<u8>,
    mdat: Seq<u8>,
    senc: SencView,
    trun: TrunView,
    out: Seq<u8>,
)
    requires
        p.source_scheme.encrypts(),
        p.target_scheme.encrypts(),
        segment::tidy(s, p),
        segment::segment_parts(s) == Ok::<(Seq<u8>, Seq<u8>), ErrorView>((moof, mdat)),
        moof.len() <= u64::MAX,
        segment::encryption_info(moof, p.source_iv_size) == Ok::<(SencView, TrunView), ErrorView>(
            (senc, trun),
        ),
        segment::rewritten(s, p) == Ok::<Seq<u8>, ErrorView>(out),
        segment::sizes_fit(s, out),
    ensures
        segment::segment_parts(out) matches Ok((m, data)) && segment::encryption_info(
            m,
            segment::fresh_iv_size(p.target_scheme),
        ) matches Ok((new, run)) && run == trun && new.entries.len() == senc.entries.len() && (
        forall|i: int|
            0 <= i < new.entries.len() ==> (#[trigger] new.entries[i]).subsamples
                == senc.entries[i].subsamples) && (exists|plain: Seq<u8>| #[trigger]
            samples_crypted(
                source_cipher(p),
                false,
                senc.entries,
                cmaf::opt_bytes(p.constant_iv),
                trun.entries,
                mdat,
                plain,
            ) && samples_crypted(
                target_cipher(p),
                true,
                new.entries,
                None,
                trun.entries,
                plain,
                data,
            )) && clear_bytes_stay(senc.entries, trun.entries, mdat, data),
{
    let o = segment::opened(s, p)->Ok_0;
    let constant = cmaf::opt_bytes(p.constant_iv);
    lemma_sizes_of(trun.entries, o.sizes);
    lemma_opened_samples(p, senc, o.sizes, trun.entries, mdat, o.data);
    let (data, entries) = segment::encrypt_from(
        target_cipher(p),
        p.segment_number,
        segment::entry_spans(senc.entries, o.sizes),
        o.data,
        0,
        Seq::empty(),
        Seq::empty(),
    )->Ok_0;
    fragment::read_entries_fit(moof, p.source_iv_size);
    lemma_coded_samples(
        p,
        senc,
        o.sizes,
        trun.entries,
        mdat,
        o.data,
        entries,
        data,
    );
    let edit = EditView::Replace(entries, (senc.flags / 2) % 2 == 1);
    let size = segment::fresh_iv_size(p.target_scheme);
    assert(segment::boxes_fit(data, out));
    lemma_new_senc(moof, edit, Some(p.source_iv_size), size, data, out);
}

proof fn lemma_opened_samples(
    p: SegmentRewriteParams,
    senc: SencView,
    sizes: Seq<u32>,
    run: Seq<TrunEntry>,
    mdat: Seq<u8>,
    plain: Seq<u8>,
)
    requires
        sizes_of(run, sizes),
        segment::decrypt_from(
            source_cipher(p),
            cmaf::opt_bytes(p.constant_iv),
            senc.entries,
            sizes,
            mdat,
            0,
            Seq::empty(),
        ) == Ok::<Seq<u8>, ErrorView>(plain),
    ensures
        samples_crypted(
            source_cipher(p),
            false,
            senc.entries,
            cmaf::opt_bytes(p.constant_iv),
            run,
            mdat,
            plain,
        ),
{
    assert(run_start(run, 0) == 0);
    lemma_decrypted(
        source_cipher(p),
        cmaf::opt_bytes(p.constant_iv),
        senc.entries,
        sizes,
        run,
        mdat,
        0,
        Seq::empty(),
        plain,
    );
}

#[verifier::spinoff_prover]
#[verifier::rlimit(60)]
proof fn lemma_coded_samples(
    p: SegmentRewriteParams,
    senc: SencView,
    sizes: Seq<u32>,
    run: Seq<TrunEntry>,
    mdat: Seq<u8>,
    plain: Seq<u8>,
    entries: Seq<SencEntryView>,
    data: Seq<u8>,
)
    requires
        p.target_scheme.encrypts(),
        sizes_of(run, sizes),
        forall|i: int|
            0 <= i < senc.entries.len() ==> round_trip::entry_fits(
                #[trigger] senc.entries[i],
                (senc.flags / 2) % 2 == 1,
                p.source_iv_size,
            ),
        samples_crypted(
            source_cipher(p),
            false,
            senc.entries,
            cmaf::opt_bytes(p.constant_iv),
            run,
            mdat,
            plain,
        ),
        segment::encrypt_from(
            target_cipher(p),
            p.segment_number,
            segment::entry_spans(senc.entries, sizes),
            plain,
            0,
            Seq::empty(),
            Seq::empty(),
        ) == Ok::<(Seq<u8>, Seq<SencEntryView>), ErrorView>((data, entries)),
    ensures
        data.len() == mdat.len(),
        entries.len() == senc.entries.len(),
        forall|i: int|
            0 <= i < entries.len() ==> (#[trigger] entries[i]).subsamples
                == senc.entries[i].subsamples,
        samples_crypted(target_cipher(p), true, entries, None, run, plain, data),
        clear_bytes_stay(senc.entries, run, mdat, data),
        fragment::readable(
            EditView::Replace(entries, (senc.flags / 2) % 2 == 1),
            segment::fresh_iv_size(p.target_scheme),
        ),
{
    let c = target_cipher(p);
    let with_subs = (senc.flags / 2) % 2 == 1;
    let size = segment::fresh_iv_size(p.target_scheme);
    let spans = segment::entry_spans(senc.entries, sizes);
    lemma_made(c, p.segment_number, spans, plain, 0, Seq::empty(), Seq::empty());
    assert forall|i: int| 0 <= i < spans.len() implies (#[trigger] spans[i]).size == run_size(
        run,
        i,
    ) && spans[i].subsamples == entries[i].subsamples by {
        assert(segment::size_at(sizes, i) == run_size(run, i));
        assert(entries[i].subsamples == spans[i].subsamples);
    }
    assert(run_start(run, 0) == 0);
    lemma_encrypted(
        c,
        p.segment_number,
        spans,
        entries,
        run,
        plain,
        0,
        Seq::empty(),
        Seq::empty(),
        data,
    );
    assert forall|i: int| 0 <= i < entries.len() implies round_trip::entry_fits(
        #[trigger] entries[i],
        with_subs,
        size,
    ) by {
        assert(round_trip::entry_fits(senc.entries[i], with_subs, p.source_iv_size));
        assert(spans[i].subsamples == senc.entries[i].subsamples);
    }
    assert forall|i: int| 0 <= i < entries.len() implies (#[trigger] entries[i]).subsamples
        == senc.entries[i].subsamples by {
        assert(spans[i].subsamples == senc.entries[i].subsamples);
    }
    lemma_same_ranges(
        senc.entries,
        entries,
        source_cipher(p),
        c,
        cmaf::opt_bytes(p.constant_iv),
        run,
        mdat,
        plain,
        data,
    );
}

} // verus!
