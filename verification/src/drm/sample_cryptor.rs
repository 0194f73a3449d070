//! Encryption and decryption of single samples.
//!
//! CENC is AES-CTR over the protected ranges of a sample, taken as one stream. CBCS is
//! AES-CBC over the blocks of each protected range that the pattern picks, each range with
//! the sample's IV again.

use crate::bytes;
use crate::crypto;
use crate::drm::scheme::EncryptionScheme;
use crate::error::{EdgepackError, ErrorView};
use crate::media::cmaf;
use vstd::prelude::*;

verus! {

/// A key with the scheme and the pattern under which samples are encrypted.
#[derive(Debug)]
pub struct SampleCryptor {
    pub scheme: EncryptionScheme,
    pub key: [u8; 16],
    /// Blocks to encrypt and blocks to skip, in turn. Without either, every block is
    /// encrypted.
    pub pattern: (u8, u8),
}

/// The content of a [`SampleCryptor`].
pub struct CryptorView {
    pub scheme: EncryptionScheme,
    pub key: Seq<u8>,
    pub pattern: (u8, u8),
}

impl View for SampleCryptor {
    type V = CryptorView;

    open spec fn view(&self) -> CryptorView {
        CryptorView { scheme: self.scheme, key: self.key@, pattern: self.pattern }
    }
}

/// The sixteen bytes of block `b`.
pub open spec fn block(x: Seq<u8>, b: int) -> Seq<u8> {
    x.subrange(16 * b, 16 * b + 16)
}

/// Whether a pattern picks block `b`.
pub open spec fn in_pattern(pattern: (u8, u8), b: int) -> bool {
    pattern.0 + pattern.1 == 0 || b % (pattern.0 + pattern.1) < pattern.0
}

/// How many of the first `n` blocks a pattern picks.
pub open spec fn picks(pattern: (u8, u8), n: nat) -> nat
    decreases n,
{
    if n == 0 {
        0
    } else if in_pattern(pattern, n - 1) {
        picks(pattern, (n - 1) as nat) + 1
    } else {
        picks(pattern, (n - 1) as nat)
    }
}

/// The picked ones of the first `n` blocks, one after the other.
pub open spec fn picked(x: Seq<u8>, pattern: (u8, u8), n: nat) -> Seq<u8>
    decreases n,
{
    if n == 0 {
        Seq::empty()
    } else if in_pattern(pattern, n - 1) {
        picked(x, pattern, (n - 1) as nat) + block(x, n - 1)
    } else {
        picked(x, pattern, (n - 1) as nat)
    }
}

/// The first `n` blocks, with the picked ones taken from `c` in turn.
pub open spec fn placed(x: Seq<u8>, pattern: (u8, u8), c: Seq<u8>, n: nat) -> Seq<u8>
    decreases n,
{
    if n == 0 {
        Seq::empty()
    } else if in_pattern(pattern, n - 1) {
        let k = picks(pattern, (n - 1) as nat);
        placed(x, pattern, c, (n - 1) as nat) + Seq::new(16, |t: int| c[16 * k + t])
    } else {
        placed(x, pattern, c, (n - 1) as nat) + block(x, n - 1)
    }
}

/// The picked ones of all whole blocks.
pub open spec fn all_picked(x: Seq<u8>, pattern: (u8, u8)) -> Seq<u8> {
    picked(x, pattern, x.len() / 16)
}

/// `x` with its picked blocks replaced by those of `c`; a partial last block stays.
pub open spec fn all_placed(x: Seq<u8>, pattern: (u8, u8), c: Seq<u8>) -> Seq<u8> {
    placed(x, pattern, c, x.len() / 16) + x.subrange(16 * (x.len() as int / 16), x.len() as int)
}

/// The counter block for block `n` of the key stream: the low 64 bits count, from zero
/// under an eight-byte IV.
pub open spec fn counter_block(iv: Seq<u8>, n: int) -> Seq<u8> {
    iv.subrange(0, 8) + bytes::bytes64(
        (n + if iv.len() == 8 {
            0
        } else {
            bytes::be64(iv, 8) as int
        }) as u64,
    )
}

/// Byte `k` of the key stream.
pub open spec fn stream_byte(key: Seq<u8>, iv: Seq<u8>, k: int) -> u8 {
    crypto::aes128_block(key, counter_block(iv, k / 16))[k % 16]
}

/// `x` under the key stream from byte `used` on.
pub open spec fn streamed(key: Seq<u8>, iv: Seq<u8>, x: Seq<u8>, used: int) -> Seq<u8> {
    Seq::new(x.len(), |t: int| x[t] ^ stream_byte(key, iv, used + t))
}

impl CryptorView {
    /// A protected range, encrypted (`forward`) or decrypted. `used` bytes were protected
    /// before it.
    pub open spec fn range(self, forward: bool, iv: Seq<u8>, x: Seq<u8>, used: int) -> Seq<u8> {
        match self.scheme {
            EncryptionScheme::Clear => x,
            EncryptionScheme::Cenc => streamed(self.key, iv, x, used),
            EncryptionScheme::Cbcs => all_placed(
                x,
                self.pattern,
                if forward {
                    crypto::aes128_cbc_cipher(self.key, iv, all_picked(x, self.pattern))
                } else {
                    crypto::aes128_cbc_plain(self.key, iv, all_picked(x, self.pattern))
                },
            ),
        }
    }

    /// The first `n` subsamples of a sample: clear bytes as they are, protected bytes
    /// encrypted or decrypted.
    pub open spec fn ranges(
        self,
        forward: bool,
        iv: Seq<u8>,
        data: Seq<u8>,
        subs: Seq<(u32, u32)>,
        n: nat,
    ) -> Seq<u8>
        decreases n,
    {
        if n == 0 {
            Seq::empty()
        } else {
            let start = sub_start(subs, (n - 1) as nat);
            let mid = start + subs[n - 1].0;
            let end = mid + subs[n - 1].1;
            self.ranges(forward, iv, data, subs, (n - 1) as nat) + data.subrange(start as int, mid)
                + self.range(
                forward,
                iv,
                data.subrange(mid, end),
                sub_used(subs, (n - 1) as nat) as int,
            )
        }
    }

    /// A sample, encrypted or decrypted. Without subsamples all of it is protected; what
    /// follows the last subsample is clear.
    pub open spec fn crypted(
        self,
        forward: bool,
        iv: Seq<u8>,
        data: Seq<u8>,
        subs: Option<Seq<(u32, u32)>>,
    ) -> Result<Seq<u8>, ErrorView> {
        if self.scheme is Cenc && iv.len() != 8 && iv.len() != 16 {
            Err(ErrorView::Encryption("CENC IV must be 8 or 16 bytes"@))
        } else if self.scheme is Cbcs && iv.len() != 16 {
            Err(ErrorView::Encryption("CBCS IV must be 16 bytes"@))
        } else {
            match subs {
                None => Ok(self.range(forward, iv, data, 0)),
                Some(list) => if sub_start(list, list.len()) > data.len() {
                    Err(ErrorView::Encryption("subsamples extend beyond the sample"@))
                } else {
                    Ok(
                        self.ranges(forward, iv, data, list, list.len()) + data.subrange(
                            sub_start(list, list.len()) as int,
                            data.len() as int,
                        ),
                    )
                },
            }
        }
    }

    /// The IV of sample `index` of a segment: eight bytes for CENC, sixteen for CBCS.
    pub open spec fn fresh_iv(self, segment: u32, index: u32) -> Seq<u8> {
        match self.scheme {
            EncryptionScheme::Cbcs => bytes::zeros(8) + bytes::bytes32(segment) + bytes::bytes32(
                index,
            ),
            EncryptionScheme::Cenc => bytes::bytes32(segment) + bytes::bytes32(index),
            EncryptionScheme::Clear => Seq::empty(),
        }
    }
}

/// Where subsample `n` starts.
pub open spec fn sub_start(subs: Seq<(u32, u32)>, n: nat) -> nat
    decreases n,
{
    if n == 0 {
        0
    } else {
        sub_start(subs, (n - 1) as nat) + subs[n - 1].0 as nat + subs[n - 1].1 as nat
    }
}

/// How many bytes are protected in the first `n` subsamples.
pub open spec fn sub_used(subs: Seq<(u32, u32)>, n: nat) -> nat
    decreases n,
{
    if n == 0 {
        0
    } else {
        sub_used(subs, (n - 1) as nat) + subs[n - 1].1 as nat
    }
}

/// The content of an optional list of subsamples.
pub open spec fn opt_subs(subs: Option<&[(u32, u32)]>) -> Option<Seq<(u32, u32)>> {
    match subs {
        Some(list) => Some(list@),
        None => None,
    }
}

/// The number of picked blocks does not fall.
pub proof fn lemma_picks_grow(pattern: (u8, u8), m: nat, n: nat)
    requires
        m <= n,
    ensures
        picks(pattern, m) <= picks(pattern, n),
    decreases n,
{
    if m < n {
        lemma_picks_grow(pattern, m, (n - 1) as nat);
    }
}

/// Picked bytes make whole blocks.
pub proof fn lemma_picked_len(x: Seq<u8>, pattern: (u8, u8), n: nat)
    requires
        16 * n <= x.len(),
    ensures
        picked(x, pattern, n).len() == 16 * picks(pattern, n),
    decreases n,
{
    if n > 0 {
        lemma_picked_len(x, pattern, (n - 1) as nat);
    }
}

/// Placing keeps the length.
pub proof fn lemma_placed_len(x: Seq<u8>, pattern: (u8, u8), c: Seq<u8>, n: nat)
    requires
        16 * n <= x.len(),
    ensures
        placed(x, pattern, c, n).len() == 16 * n,
    decreases n,
{
    if n > 0 {
        lemma_placed_len(x, pattern, c, (n - 1) as nat);
    }
}

/// What was placed at block `b` is found there.
pub proof fn lemma_placed_block(x: Seq<u8>, pattern: (u8, u8), c: Seq<u8>, n: nat, b: int, y: Seq<u8>)
    requires
        0 <= b < n,
        16 * n <= x.len(),
        16 * n <= y.len(),
        y.subrange(0, 16 * n as int) == placed(x, pattern, c, n),
    ensures
        block(y, b) == if in_pattern(pattern, b) {
            Seq::new(16, |t: int| c[16 * picks(pattern, b as nat) + t])
        } else {
            block(x, b)
        },
    decreases n,
{
    let m = (n - 1) as nat;
    lemma_placed_len(x, pattern, c, m);
    let whole = placed(x, pattern, c, n);
    if b == m {
        assert(block(y, b) =~= whole.subrange(16 * m as int, 16 * n as int));
        assert(block(y, b) =~= if in_pattern(pattern, b) {
            Seq::new(16, |t: int| c[16 * picks(pattern, b as nat) + t])
        } else {
            block(x, b)
        });
    } else {
        assert(y.subrange(0, 16 * m as int) =~= whole.subrange(0, 16 * m as int));
        assert(whole.subrange(0, 16 * m as int) =~= placed(x, pattern, c, m));
        lemma_placed_block(x, pattern, c, m, b, y);
    }
}

/// Picking gives back what was placed.
proof fn lemma_pick_placed(x: Seq<u8>, pattern: (u8, u8), c: Seq<u8>, y: Seq<u8>, n: nat)
    requires
        y == all_placed(x, pattern, c),
        n <= x.len() / 16,
        c.len() == 16 * picks(pattern, x.len() / 16),
    ensures
        picked(y, pattern, n) == c.subrange(0, 16 * picks(pattern, n) as int),
        picks(pattern, n) <= picks(pattern, x.len() / 16),
    decreases n,
{
    let total = x.len() / 16;
    lemma_placed_len(x, pattern, c, total);
    lemma_picks_grow(pattern, n, total);
    assert(y.subrange(0, 16 * total as int) =~= placed(x, pattern, c, total));
    if n == 0 {
        assert(picked(y, pattern, n) =~= c.subrange(0, 0));
    } else {
        let m = (n - 1) as nat;
        lemma_pick_placed(x, pattern, c, y, m);
        lemma_placed_block(x, pattern, c, total, m as int, y);
        lemma_picks_grow(pattern, m, n);
        assert(picked(y, pattern, n) =~= c.subrange(0, 16 * picks(pattern, n) as int));
    }
}

/// Placing what was picked from `x` into `x` with other picked blocks gives `x` back.
proof fn lemma_place_back(x: Seq<u8>, pattern: (u8, u8), c: Seq<u8>, y: Seq<u8>, n: nat)
    requires
        y == all_placed(x, pattern, c),
        n <= x.len() / 16,
    ensures
        placed(y, pattern, all_picked(x, pattern), n) == x.subrange(0, 16 * n as int),
    decreases n,
{
    let total = x.len() / 16;
    lemma_placed_len(x, pattern, c, total);
    assert(y.subrange(0, 16 * total as int) =~= placed(x, pattern, c, total));
    let p = all_picked(x, pattern);
    if n == 0 {
        assert(placed(y, pattern, p, n) =~= x.subrange(0, 0));
    } else {
        let m = (n - 1) as nat;
        lemma_place_back(x, pattern, c, y, m);
        lemma_placed_block(x, pattern, c, total, m as int, y);
        if in_pattern(pattern, m as int) {
            lemma_picked_block(x, pattern, total, m as int);
            assert(Seq::new(16, |t: int| p[16 * picks(pattern, m) + t]) =~= block(x, m as int));
        }
        assert(x.subrange(0, 16 * m as int) + block(x, m as int) =~= x.subrange(
            0,
            16 * n as int,
        ));
    }
}

/// A picked block stands where the number of picked blocks before it says.
pub proof fn lemma_picked_block(x: Seq<u8>, pattern: (u8, u8), n: nat, b: int)
    requires
        0 <= b < n,
        16 * n <= x.len(),
        in_pattern(pattern, b),
    ensures
        picks(pattern, b as nat) < picks(pattern, n),
        picked(x, pattern, n).len() == 16 * picks(pattern, n),
        block(picked(x, pattern, n), picks(pattern, b as nat) as int) == block(x, b),
    decreases n,
{
    let m = (n - 1) as nat;
    lemma_picked_len(x, pattern, m);
    lemma_picked_len(x, pattern, n);
    lemma_picks_grow(pattern, b as nat, m);
    if b == m {
        assert(block(picked(x, pattern, n), picks(pattern, b as nat) as int) =~= block(x, b));
    } else {
        lemma_picked_block(x, pattern, m, b);
        assert(block(picked(x, pattern, n), picks(pattern, b as nat) as int) =~= block(
            picked(x, pattern, m),
            picks(pattern, b as nat) as int,
        ));
    }
}

/// A range keeps its length, whichever way it goes.
pub proof fn range_keeps_length(
    c: CryptorView,
    forward: bool,
    iv: Seq<u8>,
    x: Seq<u8>,
    used: int,
)
    ensures
        c.range(forward, iv, x, used).len() == x.len(),
{
    let cipher = crypto::aes128_cbc_cipher(c.key, iv, all_picked(x, c.pattern));
    let plain = crypto::aes128_cbc_plain(c.key, iv, all_picked(x, c.pattern));
    lemma_placed_len(x, c.pattern, cipher, x.len() / 16);
    lemma_placed_len(x, c.pattern, plain, x.len() / 16);
}

/// Whether the cipher gives back the picked blocks of a range.
pub open spec fn cbc_inverts(c: CryptorView, iv: Seq<u8>, x: Seq<u8>) -> bool {
    let data = all_picked(x, c.pattern);
    let cipher = crypto::aes128_cbc_cipher(c.key, iv, data);
    cipher.len() == data.len() && crypto::aes128_cbc_plain(c.key, iv, cipher) == data
}

/// Decrypting an encrypted range gives it back. Under CBCS this rests on the cipher.
pub proof fn range_round_trip(c: CryptorView, iv: Seq<u8>, x: Seq<u8>, used: int)
    requires
        c.scheme is Cbcs ==> cbc_inverts(c, iv, x),
    ensures
        c.range(false, iv, c.range(true, iv, x, used), used) == x,
{
    let y = c.range(true, iv, x, used);
    range_keeps_length(c, true, iv, x, used);
    match c.scheme {
        EncryptionScheme::Clear => {},
        EncryptionScheme::Cenc => {
            assert forall|t: int| 0 <= t < x.len() implies (y[t] ^ stream_byte(
                c.key,
                iv,
                used + t,
            )) == x[t] by {
                let a = x[t];
                let k = stream_byte(c.key, iv, used + t);
                assert((a ^ k) ^ k == a) by (bit_vector);
            }
            assert(c.range(false, iv, y, used) =~= x);
        },
        EncryptionScheme::Cbcs => {
            let n = x.len() / 16;
            let data = all_picked(x, c.pattern);
            let cipher = crypto::aes128_cbc_cipher(c.key, iv, data);
            lemma_picked_len(x, c.pattern, n);
            lemma_pick_placed(x, c.pattern, cipher, y, n);
            assert(cipher.subrange(0, cipher.len() as int) =~= cipher);
            lemma_place_back(x, c.pattern, cipher, y, n);
            lemma_placed_len(x, c.pattern, cipher, n);
            assert(y.subrange(16 * n as int, y.len() as int) =~= x.subrange(
                16 * n as int,
                x.len() as int,
            ));
            assert(c.range(false, iv, y, used) =~= x);
        },
    }
}

proof fn lemma_same_ranges(
    c: CryptorView,
    d: CryptorView,
    forward: bool,
    iv: Seq<u8>,
    data: Seq<u8>,
    subs: Seq<(u32, u32)>,
    n: nat,
)
    requires
        c.scheme == d.scheme,
        c.key == d.key,
        !(c.scheme is Cbcs),
    ensures
        c.ranges(forward, iv, data, subs, n) == d.ranges(forward, iv, data, subs, n),
    decreases n,
{
    if n > 0 {
        lemma_same_ranges(c, d, forward, iv, data, subs, (n - 1) as nat);
    }
}

/// The pattern matters under CBCS alone.
pub proof fn only_cbcs_has_a_pattern(
    c: CryptorView,
    d: CryptorView,
    forward: bool,
    iv: Seq<u8>,
    data: Seq<u8>,
    subs: Option<Seq<(u32, u32)>>,
)
    requires
        c.scheme == d.scheme,
        c.key == d.key,
        c.scheme is Cbcs ==> c.pattern == d.pattern,
    ensures
        c.crypted(forward, iv, data, subs) == d.crypted(forward, iv, data, subs),
{
    if !(c.scheme is Cbcs) {
        if let Some(list) = subs {
            lemma_same_ranges(c, d, forward, iv, data, list, list.len());
        }
    }
}

proof fn lemma_sub_start_grows(subs: Seq<(u32, u32)>, m: nat, n: nat)
    requires
        m <= n,
    ensures
        sub_start(subs, m) <= sub_start(subs, n),
    decreases n,
{
    if m < n {
        lemma_sub_start_grows(subs, m, (n - 1) as nat);
    }
}

proof fn lemma_ranges_len(
    c: CryptorView,
    forward: bool,
    iv: Seq<u8>,
    data: Seq<u8>,
    subs: Seq<(u32, u32)>,
    n: nat,
)
    requires
        sub_start(subs, n) <= data.len(),
    ensures
        c.ranges(forward, iv, data, subs, n).len() == sub_start(subs, n),
    decreases n,
{
    if n > 0 {
        let m = (n - 1) as nat;
        lemma_ranges_len(c, forward, iv, data, subs, m);
        let mid = sub_start(subs, m) + subs[m as int].0;
        range_keeps_length(
            c,
            forward,
            iv,
            data.subrange(mid, mid + subs[m as int].1),
            sub_used(subs, m) as int,
        );
    }
}

/// The protected range of subsample `j`.
pub open spec fn protected(data: Seq<u8>, subs: Seq<(u32, u32)>, j: int) -> Seq<u8> {
    data.subrange(
        sub_start(subs, j as nat) + subs[j].0,
        sub_start(subs, j as nat) + subs[j].0 + subs[j].1,
    )
}

proof fn lemma_ranges_round_trip(
    c: CryptorView,
    iv: Seq<u8>,
    data: Seq<u8>,
    e: Seq<u8>,
    subs: Seq<(u32, u32)>,
    n: nat,
)
    requires
        sub_start(subs, n) <= data.len(),
        data.len() == e.len(),
        e.subrange(0, sub_start(subs, n) as int) == c.ranges(true, iv, data, subs, n),
        c.scheme is Cbcs ==> forall|j: int|
            0 <= j < n ==> #[trigger] cbc_inverts(c, iv, protected(data, subs, j)),
    ensures
        c.ranges(false, iv, e, subs, n) == data.subrange(0, sub_start(subs, n) as int),
    decreases n,
{
    if n == 0 {
        assert(c.ranges(false, iv, e, subs, n) =~= data.subrange(0, 0));
    } else {
        let m = (n - 1) as nat;
        let start = sub_start(subs, m) as int;
        let mid = start + subs[m as int].0;
        let end = sub_start(subs, n) as int;
        let used = sub_used(subs, m) as int;
        let x = data.subrange(mid, end);
        lemma_ranges_len(c, true, iv, data, subs, m);
        range_keeps_length(c, true, iv, x, used);
        let whole = c.ranges(true, iv, data, subs, n);
        assert(e.subrange(0, start) =~= e.subrange(0, end).subrange(0, start));
        assert(whole.subrange(0, start) =~= c.ranges(true, iv, data, subs, m));
        lemma_ranges_round_trip(c, iv, data, e, subs, m);
        assert(e.subrange(start, mid) =~= whole.subrange(start, mid));
        assert(whole.subrange(start, mid) =~= data.subrange(start, mid));
        assert(e.subrange(mid, end) =~= whole.subrange(mid, end));
        assert(whole.subrange(mid, end) =~= c.range(true, iv, x, used));
        if c.scheme is Cbcs {
            assert(cbc_inverts(c, iv, protected(data, subs, m as int)));
        }
        range_round_trip(c, iv, x, used);
        assert(data.subrange(0, start) + data.subrange(start, mid) + x =~= data.subrange(0, end));
    }
}

/// Whether the cipher gives back every protected range of a sample.
pub open spec fn cbc_inverts_all(
    c: CryptorView,
    iv: Seq<u8>,
    data: Seq<u8>,
    subs: Option<Seq<(u32, u32)>>,
) -> bool {
    match subs {
        None => cbc_inverts(c, iv, data),
        Some(list) => forall|j: int|
            0 <= j < list.len() ==> #[trigger] cbc_inverts(c, iv, protected(data, list, j)),
    }
}

/// Decrypting an encrypted sample gives it back. Under CBCS this rests on the cipher.
pub proof fn sample_round_trip(
    c: CryptorView,
    iv: Seq<u8>,
    data: Seq<u8>,
    subs: Option<Seq<(u32, u32)>>,
)
    requires
        c.crypted(true, iv, data, subs) is Ok,
        c.scheme is Cbcs ==> cbc_inverts_all(c, iv, data, subs),
    ensures
        c.crypted(true, iv, data, subs)->Ok_0.len() == data.len(),
        c.crypted(false, iv, c.crypted(true, iv, data, subs)->Ok_0, subs) == Ok::<
            Seq<u8>,
            ErrorView,
        >(data),
{
    let e = c.crypted(true, iv, data, subs)->Ok_0;
    match subs {
        None => {
            range_keeps_length(c, true, iv, data, 0);
            range_round_trip(c, iv, data, 0);
        },
        Some(list) => {
            let n = list.len();
            let end = sub_start(list, n) as int;
            lemma_ranges_len(c, true, iv, data, list, n);
            assert(e.subrange(0, end) =~= c.ranges(true, iv, data, list, n));
            lemma_ranges_round_trip(c, iv, data, e, list, n);
            assert(e.subrange(end, e.len() as int) =~= data.subrange(end, data.len() as int));
            assert(data.subrange(0, end) + data.subrange(end, data.len() as int) =~= data);
        },
    }
}

/// An encrypted or decrypted sample is as long as the sample.
pub proof fn crypted_keeps_length(
    c: CryptorView,
    forward: bool,
    iv: Seq<u8>,
    data: Seq<u8>,
    subs: Option<Seq<(u32, u32)>>,
)
    requires
        c.crypted(forward, iv, data, subs) is Ok,
    ensures
        c.crypted(forward, iv, data, subs)->Ok_0.len() == data.len(),
{
    match subs {
        None => {
            range_keeps_length(c, forward, iv, data, 0);
        },
        Some(list) => {
            lemma_ranges_len(c, forward, iv, data, list, list.len());
        },
    }
}

/// No two samples of a track get the same IV: it tells the segment and the sample apart.
pub proof fn fresh_ivs_differ(c: CryptorView, segment: u32, index: u32, other: u32, place: u32)
    requires
        c.scheme.encrypts(),
        c.fresh_iv(segment, index) == c.fresh_iv(other, place),
    ensures
        segment == other,
        index == place,
{
    let a = c.fresh_iv(segment, index);
    let b = c.fresh_iv(other, place);
    let at: int = if c.scheme is Cbcs {
        8
    } else {
        0
    };
    assert(a.subrange(at, at + 4) =~= bytes::bytes32(segment));
    assert(b.subrange(at, at + 4) =~= bytes::bytes32(other));
    assert(a.subrange(at + 4, at + 8) =~= bytes::bytes32(index));
    assert(b.subrange(at + 4, at + 8) =~= bytes::bytes32(place));
    bytes::lemma_be32_of_bytes32(a, at, segment);
    bytes::lemma_be32_of_bytes32(b, at, other);
    bytes::lemma_be32_of_bytes32(a, at + 4, index);
    bytes::lemma_be32_of_bytes32(b, at + 4, place);
}

/// A cryptor that decrypts samples.
pub fn create_decryptor(scheme: EncryptionScheme, key: [u8; 16], pattern: (u8, u8)) -> (c:
    SampleCryptor)
    ensures
        c == (SampleCryptor { scheme, key, pattern }),
{
    SampleCryptor { scheme, key, pattern }
}

/// A cryptor that encrypts samples.
pub fn create_encryptor(scheme: EncryptionScheme, key: [u8; 16], pattern: (u8, u8)) -> (c:
    SampleCryptor)
    ensures
        c == (SampleCryptor { scheme, key, pattern }),
{
    SampleCryptor { scheme, key, pattern }
}

/// Whether a pattern picks block `b`.
fn picks_block(pattern: (u8, u8), b: usize) -> (yes: bool)
    ensures
        yes == in_pattern(pattern, b as int),
{
    let period: usize = pattern.0 as usize + pattern.1 as usize;
    period == 0 || b % period < pattern.0 as usize
}

/// The picked ones of all whole blocks.
fn pick_blocks(data: &[u8], pattern: (u8, u8)) -> (out: Vec<u8>)
    ensures
        out@ == all_picked(data@, pattern),
        out@.len() % 16 == 0,
        out@.len() == 16 * picks(pattern, data@.len() / 16),
{
    let total: usize = data.len() / 16;
    let mut out: Vec<u8> = Vec::new();
    let mut b: usize = 0;
    while b < total
        invariant
            b <= total,
            total == data.len() / 16,
            out@ == picked(data@, pattern, b as nat),
        decreases total - b,
    {
        if picks_block(pattern, b) {
            bytes::put_bytes(&mut out, &data[16 * b..16 * b + 16]);
        }
        b = b + 1;
    }
    proof {
        lemma_picked_len(data@, pattern, data@.len() / 16);
    }
    out
}

/// `data` with its picked blocks replaced by those of `c`.
fn place_blocks(data: &[u8], pattern: (u8, u8), c: &[u8]) -> (out: Vec<u8>)
    requires
        c@.len() == 16 * picks(pattern, data@.len() / 16),
    ensures
        out@ == all_placed(data@, pattern, c@),
{
    let total: usize = data.len() / 16;
    let mut out: Vec<u8> = Vec::new();
    let mut b: usize = 0;
    let mut k: usize = 0;
    while b < total
        invariant
            b <= total,
            total == data.len() / 16,
            k == picks(pattern, b as nat),
            k <= b,
            c@.len() == 16 * picks(pattern, total as nat),
            out@ == placed(data@, pattern, c@, b as nat),
        decreases total - b,
    {
        if picks_block(pattern, b) {
            proof {
                lemma_picks_grow(pattern, (b + 1) as nat, total as nat);
            }
            bytes::put_bytes(&mut out, &c[16 * k..16 * k + 16]);
            assert(c@.subrange(16 * k as int, 16 * k + 16) =~= Seq::new(
                16,
                |t: int| c@[16 * k + t],
            ));
            k = k + 1;
        } else {
            bytes::put_bytes(&mut out, &data[16 * b..16 * b + 16]);
        }
        b = b + 1;
    }
    bytes::put_bytes(&mut out, &data[16 * total..data.len()]);
    out
}

/// The counter block for block `n` of the key stream.
fn make_counter_block(iv: &[u8], n: u64) -> (out: [u8; 16])
    requires
        iv@.len() == 8 || iv@.len() == 16,
    ensures
        out@ == counter_block(iv@, n as int),
{
    let first: u64 = if iv.len() == 8 {
        0
    } else {
        bytes::read_u64(iv, 8)
    };
    let mut counter: Vec<u8> = bytes::to_vec(&iv[0..8]);
    bytes::put_u64(&mut counter, (n as u128 + first as u128) as u64);
    let out: [u8; 16] = bytes::read_16(counter.as_slice(), 0);
    assert(out@ =~= counter@);
    out
}

/// `data` under the key stream from byte `used` on.
fn apply_stream(key: &[u8; 16], iv: &[u8], data: &[u8], used: usize) -> (out: Vec<u8>)
    requires
        iv@.len() == 8 || iv@.len() == 16,
        used + data.len() <= usize::MAX,
    ensures
        out@ == streamed(key@, iv@, data@, used as int),
{
    let mut out: Vec<u8> = Vec::new();
    let mut stream: [u8; 16] = crypto::aes128_encrypt_block(
        key,
        &make_counter_block(iv, (used / 16) as u64),
    );
    let mut t: usize = 0;
    while t < data.len()
        invariant
            t <= data.len(),
            iv@.len() == 8 || iv@.len() == 16,
            used + data.len() <= usize::MAX,
            stream@ == crypto::aes128_block(key@, counter_block(iv@, (used + t) / 16)) || (used + t)
                % 16 == 0,
            t == 0 ==> stream@ == crypto::aes128_block(key@, counter_block(iv@, used as int / 16)),
            out@ == streamed(key@, iv@, data@.subrange(0, t as int), used as int),
        decreases data.len() - t,
    {
        let k: usize = used + t;
        if t > 0 && k % 16 == 0 {
            stream = crypto::aes128_encrypt_block(key, &make_counter_block(iv, (k / 16) as u64));
        }
        assert(stream@ == crypto::aes128_block(key@, counter_block(iv@, k as int / 16)));
        let byte: u8 = data[t] ^ stream[k % 16];
        out.push(byte);
        assert(byte == data@[t as int] ^ stream_byte(key@, iv@, used + t));
        t = t + 1;
        assert(out@ =~= streamed(key@, iv@, data@.subrange(0, t as int), used as int));
    }
    assert(data@.subrange(0, data@.len() as int) =~= data@);
    out
}

impl SampleCryptor {
    /// Encrypts (`forward`) or decrypts a protected range.
    fn crypt_range(&self, forward: bool, iv: &[u8], data: &[u8], used: usize) -> (out: Vec<u8>)
        requires
            self.scheme is Cenc ==> iv@.len() == 8 || iv@.len() == 16,
            self.scheme is Cbcs ==> iv@.len() == 16,
            used + data.len() <= usize::MAX,
        ensures
            out@ == self@.range(forward, iv@, data@, used as int),
            out@.len() == data@.len(),
            forward && self.scheme is Cbcs ==> cbc_inverts(self@, iv@, data@),
    {
        proof {
            range_keeps_length(self@, forward, iv@, data@, used as int);
        }
        match self.scheme {
            EncryptionScheme::Clear => bytes::to_vec(data),
            EncryptionScheme::Cenc => apply_stream(&self.key, iv, data, used),
            EncryptionScheme::Cbcs => {
                let iv16: [u8; 16] = bytes::read_16(iv, 0);
                assert(iv16@ =~= iv@);
                let blocks: Vec<u8> = pick_blocks(data, self.pattern);
                if forward {
                    match crypto::aes128_cbc_encrypt(blocks.as_slice(), &self.key, &iv16) {
                        Ok(c) => place_blocks(data, self.pattern, c.as_slice()),
                        Err(_) => bytes::to_vec(data),
                    }
                } else {
                    match crypto::aes128_cbc_decrypt(blocks.as_slice(), &self.key, &iv16) {
                        Ok(c) => place_blocks(data, self.pattern, c.as_slice()),
                        Err(_) => bytes::to_vec(data),
                    }
                }
            },
        }
    }

    /// Encrypts (`forward`) or decrypts a sample.
    #[verifier::loop_isolation(false)]
    fn crypt_sample(
        &self,
        forward: bool,
        data: &[u8],
        iv: &[u8],
        subsamples: Option<&[(u32, u32)]>,
    ) -> (r: Result<Vec<u8>, EdgepackError>)
        ensures
            cmaf::outcome_view(r) == self@.crypted(forward, iv@, data@, opt_subs(subsamples)),
            r is Ok && forward && self.scheme is Cbcs ==> cbc_inverts_all(
                self@,
                iv@,
                data@,
                opt_subs(subsamples),
            ),
    {
        match self.scheme {
            EncryptionScheme::Cenc => {
                if iv.len() != 8 && iv.len() != 16 {
                    return Err(EdgepackError::encryption("CENC IV must be 8 or 16 bytes"));
                }
            },
            EncryptionScheme::Cbcs => {
                if iv.len() != 16 {
                    return Err(EdgepackError::encryption("CBCS IV must be 16 bytes"));
                }
            },
            EncryptionScheme::Clear => {},
        }
        let list: &[(u32, u32)] = match subsamples {
            Some(list) => list,
            None => return Ok(self.crypt_range(forward, iv, data, 0)),
        };
        let mut out: Vec<u8> = Vec::new();
        let mut used: usize = 0;
        let mut j: usize = 0;
        while j < list.len()
            invariant
                j <= list.len(),
                sub_start(list@, j as nat) <= data.len(),
                out@ == self@.ranges(forward, iv@, data@, list@, j as nat),
                out@.len() == sub_start(list@, j as nat),
                used == sub_used(list@, j as nat),
                used <= out@.len(),
                forward && self.scheme is Cbcs ==> forall|i: int|
                    0 <= i < j ==> #[trigger] cbc_inverts(
                        self@,
                        iv@,
                        protected(data@, list@, i),
                    ),
            decreases list.len() - j,
        {
            let start: usize = out.len();
            let clear: usize = list[j].0 as usize;
            let coded: usize = list[j].1 as usize;
            proof {
                lemma_sub_start_grows(list@, (j + 1) as nat, list@.len());
            }
            if clear > data.len() - start || coded > data.len() - start - clear {
                return Err(EdgepackError::encryption("subsamples extend beyond the sample"));
            }
            bytes::put_bytes(&mut out, &data[start..start + clear]);
            let range: &[u8] = &data[start + clear..start + clear + coded];
            let part: Vec<u8> = self.crypt_range(forward, iv, range, used);
            assert(range@ == protected(data@, list@, j as int));
            bytes::put_bytes(&mut out, part.as_slice());
            used = used + coded;
            j = j + 1;
        }
        let start: usize = out.len();
        bytes::put_bytes(&mut out, &data[start..data.len()]);
        Ok(out)
    }

    /// Decrypts a sample. `subsamples` lists clear and protected bytes in turn.
    pub fn decrypt_sample(&self, data: &[u8], iv: &[u8], subsamples: Option<&[(u32, u32)]>) -> (r:
        Result<Vec<u8>, EdgepackError>)
        ensures
            cmaf::outcome_view(r) == self@.crypted(false, iv@, data@, opt_subs(subsamples)),
    {
        self.crypt_sample(false, data, iv, subsamples)
    }

    /// Encrypts a sample. Decrypting the result with the same IV and subsamples gives the
    /// sample back.
    pub fn encrypt_sample(&self, data: &[u8], iv: &[u8], subsamples: Option<&[(u32, u32)]>) -> (r:
        Result<Vec<u8>, EdgepackError>)
        ensures
            cmaf::outcome_view(r) == self@.crypted(true, iv@, data@, opt_subs(subsamples)),
            r matches Ok(e) ==> self@.crypted(false, iv@, e@, opt_subs(subsamples)) == Ok::<
                Seq<u8>,
                ErrorView,
            >(data@),
    {
        let r: Result<Vec<u8>, EdgepackError> = self.crypt_sample(true, data, iv, subsamples);
        proof {
            if r is Ok {
                sample_round_trip(self@, iv@, data@, opt_subs(subsamples));
            }
        }
        r
    }

    /// The IV for a sample, from the segment's number and the sample's index.
    pub fn generate_iv(&self, segment_number: u32, sample_index: u32) -> (iv: Vec<u8>)
        ensures
            iv@ == self@.fresh_iv(segment_number, sample_index),
    {
        let mut iv: Vec<u8> = Vec::new();
        match self.scheme {
            EncryptionScheme::Cbcs => {
                bytes::put_zeros(&mut iv, 8);
            },
            EncryptionScheme::Cenc => {},
            EncryptionScheme::Clear => return iv,
        }
        bytes::put_u32(&mut iv, segment_number);
        bytes::put_u32(&mut iv, sample_index);
        assert(iv@ =~= self@.fresh_iv(segment_number, sample_index));
        iv
    }
}

/// The IV of a sample says the number of the segment and the place of the sample in its last eight
/// bytes: all there is for the counter mode, behind eight zeros for the pattern mode.
pub proof fn fresh_ivs_tell_their_sample(c: CryptorView, segment: u32, index: u32)
    requires
        c.scheme is Cenc || c.scheme is Cbcs,
    ensures
        ({
            let iv = c.fresh_iv(segment, index);
            let n = iv.len() as int;
            &&& n == (if c.scheme is Cenc {
                8int
            } else {
                16
            })
            &&& bytes::be32(iv, n - 8) == segment
            &&& bytes::be32(iv, n - 4) == index
            &&& forall|i: int| 0 <= i < n - 8 ==> #[trigger] iv[i] == 0
        }),
{
    let iv = c.fresh_iv(segment, index);
    let n = iv.len() as int;
    assert(iv.subrange(n - 8, n - 4) =~= bytes::bytes32(segment));
    bytes::lemma_be32_of_bytes32(iv, n - 8, segment);
    assert(iv.subrange(n - 4, n) =~= bytes::bytes32(index));
    bytes::lemma_be32_of_bytes32(iv, n - 4, index);
}

} // verus!
