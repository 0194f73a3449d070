//! What the two encryption schemes do to each byte and to each block.

use crate::bytes;
use crate::crypto;
use crate::drm::sample_cryptor;
use crate::drm::sample_cryptor::CryptorView;
use vstd::prelude::*;

verus! {

/// Whether the cipher makes blocks of blocks under a key.
pub open spec fn makes_blocks(key: Seq<u8>) -> bool {
    &&& forall|b: Seq<u8>| (#[trigger] crypto::aes128_block(key, b)).len() == 16
    &&& forall|b: Seq<u8>| (#[trigger] crypto::aes128_unblock(key, b)).len() == 16
}

// The counter mode.

/// Where a counter starts: at zero under an IV of eight bytes, else at the number in the second
/// half of the IV.
pub open spec fn counter_start(iv: Seq<u8>) -> int {
    if iv.len() == 8 {
        0
    } else {
        bytes::be64(iv, 8) as int
    }
}

/// Whether a block is the `n`th that is encrypted for the key stream: the first half is that of
/// the IV, the second half counts.
pub open spec fn is_counter(b: Seq<u8>, iv: Seq<u8>, n: int) -> bool {
    &&& b.len() == 16
    &&& b.subrange(0, 8) == iv.subrange(0, 8)
    &&& bytes::be64(b, 8) == counter_start(iv) + n
}

/// In the counter mode each byte is flipped by the key stream byte at its own place among the
/// protected bytes of the sample, both ways; the stream goes on from range to range.
pub proof fn counted_bytes_are_flipped(
    c: CryptorView,
    forward: bool,
    iv: Seq<u8>,
    x: Seq<u8>,
    used: nat,
    t: int,
    b: Seq<u8>,
)
    requires
        c.scheme is Cenc,
        iv.len() == 8 || iv.len() == 16,
        0 <= t < x.len(),
        is_counter(b, iv, (used + t) / 16),
    ensures
        c.range(forward, iv, x, used as int).len() == x.len(),
        c.range(forward, iv, x, used as int)[t] == x[t] ^ crypto::aes128_block(c.key, b)[(used + t)
            % 16],
{
    let n = (used + t) / 16;
    let v = bytes::be64(b, 8);
    lemma_bytes64(b);
    let block = sample_cryptor::counter_block(iv, n);
    assert((n + counter_start(iv)) as u64 == v);
    assert(b =~= b.subrange(0, 8) + b.subrange(8, 16));
    assert(block =~= b);
}

proof fn lemma_bytes64(b: Seq<u8>)
    requires
        b.len() == 16,
    ensures
        bytes::bytes64(bytes::be64(b, 8)) == b.subrange(8, 16),
{
    bytes::lemma_bytes32_of_be32(b, 8);
    bytes::lemma_bytes32_of_be32(b, 12);
    let v = bytes::be64(b, 8);
    assert(bytes::bytes64(v) =~= b.subrange(8, 12) + b.subrange(12, 16));
    assert(b.subrange(8, 16) =~= b.subrange(8, 12) + b.subrange(12, 16));
}

// The pattern mode.

/// Where a block stands in its turn of the pattern, counted block by block.
pub open spec fn place_in_turn(pattern: (u8, u8), b: nat) -> nat
    decreases b,
{
    if b == 0 {
        0
    } else {
        let next = place_in_turn(pattern, (b - 1) as nat) + 1;
        if next == pattern.0 + pattern.1 {
            0
        } else {
            next
        }
    }
}

/// Whether a block is protected: all are without a pattern, else so many at the start of each
/// turn of the pattern.
pub open spec fn protects(pattern: (u8, u8), b: nat) -> bool {
    pattern == (0u8, 0u8) || place_in_turn(pattern, b) < pattern.0
}

proof fn lemma_place(pattern: (u8, u8), b: nat)
    requires
        pattern.0 + pattern.1 > 0,
    ensures
        place_in_turn(pattern, b) == b % ((pattern.0 + pattern.1) as nat),
    decreases b,
{
    let turn = (pattern.0 + pattern.1) as int;
    if b > 0 {
        lemma_place(pattern, (b - 1) as nat);
        let r = (b - 1) % turn;
        let q = (b - 1) / turn;
        vstd::arithmetic::div_mod::lemma_fundamental_div_mod(b - 1, turn);
        if r + 1 == turn {
            assert(b == turn * (q + 1) + 0) by (nonlinear_arith)
                requires
                    b - 1 == turn * q + r,
                    r + 1 == turn,
            ;
            vstd::arithmetic::div_mod::lemma_fundamental_div_mod_converse(
                b as int,
                turn,
                q + 1,
                0,
            );
        } else {
            vstd::arithmetic::div_mod::lemma_fundamental_div_mod_converse(
                b as int,
                turn,
                q,
                r + 1,
            );
        }
    } else {
        vstd::arithmetic::div_mod::lemma_small_mod(0, turn as nat);
    }
}

proof fn lemma_protects(pattern: (u8, u8), b: nat)
    ensures
        protects(pattern, b) == sample_cryptor::in_pattern(pattern, b as int),
{
    if pattern.0 + pattern.1 > 0 {
        lemma_place(pattern, b);
    }
}

/// The last protected block before block `b`.
pub open spec fn protected_before(pattern: (u8, u8), b: nat) -> Option<nat>
    decreases b,
{
    if b == 0 {
        None
    } else if protects(pattern, (b - 1) as nat) {
        Some((b - 1) as nat)
    } else {
        protected_before(pattern, (b - 1) as nat)
    }
}

proof fn lemma_before(pattern: (u8, u8), b: nat)
    ensures
        match protected_before(pattern, b) {
            Some(p) => p < b && protects(pattern, p) && sample_cryptor::picks(pattern, b)
                == sample_cryptor::picks(pattern, p) + 1,
            None => sample_cryptor::picks(pattern, b) == 0,
        },
    decreases b,
{
    if b > 0 {
        let m = (b - 1) as nat;
        lemma_protects(pattern, m);
        lemma_before(pattern, m);
    }
}

/// The sixteen bytes of block `b`.
pub open spec fn block_of(x: Seq<u8>, b: nat) -> Seq<u8> {
    Seq::new(16, |i: int| x[16 * b + i])
}

/// Two blocks, bit by bit.
pub open spec fn exclusive_or(a: Seq<u8>, b: Seq<u8>) -> Seq<u8> {
    Seq::new(16, |i: int| a[i] ^ b[i])
}

/// Block `k` of a chain of encrypted blocks.
proof fn lemma_chain(key: Seq<u8>, iv: Seq<u8>, data: Seq<u8>, k: nat)
    requires
        makes_blocks(key),
        16 * (k + 1) <= data.len(),
    ensures
        ({
            let c = crypto::aes128_cbc_cipher(key, iv, data);
            &&& c.len() >= 16 * (k + 1)
            &&& block_of(c, k) == crypto::aes128_block(
                key,
                exclusive_or(
                    block_of(data, k),
                    if k == 0 {
                        iv
                    } else {
                        block_of(c, (k - 1) as nat)
                    },
                ),
            )
        }),
    decreases k,
{
    reveal(crypto::aes128_cbc_cipher);
    let c = crypto::aes128_cbc_cipher(key, iv, data);
    let first = crypto::aes128_block(key, crypto::flipped(data.take(16), iv));
    let rest = crypto::aes128_cbc_cipher(key, first, data.skip(16));
    assert(c == first + rest);
    assert(block_of(c, 0) =~= first);
    assert(data.take(16) =~= block_of(data, 0));
    assert(crypto::flipped(data.take(16), iv) =~= exclusive_or(block_of(data, 0), iv));
    if k > 0 {
        let m = (k - 1) as nat;
        lemma_chain(key, first, data.skip(16), m);
        assert(block_of(data.skip(16), m) =~= block_of(data, k));
        assert(block_of(c, k) =~= block_of(rest, m));
        if m > 0 {
            assert(block_of(c, m) =~= block_of(rest, (m - 1) as nat));
        }
    }
}

/// Block `k` of a chain of decrypted blocks.
proof fn lemma_chain_back(key: Seq<u8>, iv: Seq<u8>, data: Seq<u8>, k: nat)
    requires
        makes_blocks(key),
        16 * (k + 1) <= data.len(),
    ensures
        ({
            let c = crypto::aes128_cbc_plain(key, iv, data);
            &&& c.len() >= 16 * (k + 1)
            &&& block_of(c, k) == exclusive_or(
                crypto::aes128_unblock(key, block_of(data, k)),
                if k == 0 {
                    iv
                } else {
                    block_of(data, (k - 1) as nat)
                },
            )
        }),
    decreases k,
{
    reveal(crypto::aes128_cbc_plain);
    let c = crypto::aes128_cbc_plain(key, iv, data);
    let head = data.take(16);
    let first = crypto::flipped(crypto::aes128_unblock(key, head), iv);
    let rest = crypto::aes128_cbc_plain(key, head, data.skip(16));
    assert(c == first + rest);
    assert(block_of(c, 0) =~= first);
    assert(head =~= block_of(data, 0));
    assert(first =~= exclusive_or(crypto::aes128_unblock(key, block_of(data, 0)), iv));
    if k > 0 {
        let m = (k - 1) as nat;
        lemma_chain_back(key, head, data.skip(16), m);
        assert(block_of(data.skip(16), m) =~= block_of(data, k));
        assert(block_of(c, k) =~= block_of(rest, m));
        if m > 0 {
            assert(block_of(data.skip(16), (m - 1) as nat) =~= block_of(data, m));
        }
    }
}

/// What comes before block `b` in its chain: the protected block before it, or the IV.
pub open spec fn before_in_chain(x: Seq<u8>, iv: Seq<u8>, pattern: (u8, u8), b: nat) -> Seq<u8> {
    match protected_before(pattern, b) {
        Some(p) => block_of(x, p),
        None => iv,
    }
}

/// Where the picked blocks come from and where they go.
#[verifier::rlimit(40)]
proof fn lemma_picked(x: Seq<u8>, pattern: (u8, u8), c: Seq<u8>, b: nat)
    requires
        16 * (b + 1) <= x.len(),
    ensures
        ({
            let y = sample_cryptor::all_placed(x, pattern, c);
            let data = sample_cryptor::all_picked(x, pattern);
            let k = sample_cryptor::picks(pattern, b);
            &&& y.len() == x.len()
            &&& !protects(pattern, b) ==> block_of(y, b) == block_of(x, b)
            &&& protects(pattern, b) ==> {
                &&& block_of(y, b) == block_of(c, k)
                &&& 16 * (k + 1) <= data.len()
                &&& block_of(data, k) == block_of(x, b)
            }
        }),
{
    let n = x.len() / 16;
    let y = sample_cryptor::all_placed(x, pattern, c);
    let data = sample_cryptor::all_picked(x, pattern);
    let k = sample_cryptor::picks(pattern, b);
    lemma_protects(pattern, b);
    sample_cryptor::lemma_placed_len(x, pattern, c, n);
    assert(y.subrange(0, 16 * n as int) =~= sample_cryptor::placed(x, pattern, c, n));
    sample_cryptor::lemma_placed_block(x, pattern, c, n, b as int, y);
    assert(sample_cryptor::block(y, b as int) =~= block_of(y, b));
    assert(sample_cryptor::block(x, b as int) =~= block_of(x, b));
    if protects(pattern, b) {
        assert(block_of(y, b) =~= block_of(c, k));
        sample_cryptor::lemma_picked_block(x, pattern, n, b as int);
        assert(sample_cryptor::block(data, k as int) =~= block_of(data, k));
    }
}

/// In the pattern mode a block that is not protected stays. A protected one is combined with the
/// protected one before it, as that came out, or with the IV where it is the first, and then
/// encrypted.
pub proof fn patterns_chain_protected_blocks(c: CryptorView, iv: Seq<u8>, x: Seq<u8>, used: int, b: nat)
    requires
        c.scheme is Cbcs,
        16 * (b + 1) <= x.len(),
    ensures
        makes_blocks(c.key) ==> {
            let y = c.range(true, iv, x, used);
            &&& y.len() == x.len()
            &&& block_of(y, b) == (if protects(c.pattern, b) {
                crypto::aes128_block(
                    c.key,
                    exclusive_or(block_of(x, b), before_in_chain(y, iv, c.pattern, b)),
                )
            } else {
                block_of(x, b)
            })
        },
{
    if makes_blocks(c.key) {
        let data = sample_cryptor::all_picked(x, c.pattern);
        let e = crypto::aes128_cbc_cipher(c.key, iv, data);
        let k = sample_cryptor::picks(c.pattern, b);
        lemma_picked(x, c.pattern, e, b);
        lemma_before(c.pattern, b);
        if protects(c.pattern, b) {
            lemma_chain(c.key, iv, data, k);
            if let Some(p) = protected_before(c.pattern, b) {
                lemma_picked(x, c.pattern, e, p);
            }
        }
    }
}

/// The way back: a protected block is decrypted and then combined with the protected one before
/// it, as that came in, or with the IV.
pub proof fn patterns_unchain_protected_blocks(
    c: CryptorView,
    iv: Seq<u8>,
    x: Seq<u8>,
    used: int,
    b: nat,
)
    requires
        c.scheme is Cbcs,
        16 * (b + 1) <= x.len(),
    ensures
        makes_blocks(c.key) ==> {
            let y = c.range(false, iv, x, used);
            &&& y.len() == x.len()
            &&& block_of(y, b) == (if protects(c.pattern, b) {
                exclusive_or(
                    crypto::aes128_unblock(c.key, block_of(x, b)),
                    before_in_chain(x, iv, c.pattern, b),
                )
            } else {
                block_of(x, b)
            })
        },
{
    if makes_blocks(c.key) {
        let data = sample_cryptor::all_picked(x, c.pattern);
        let d = crypto::aes128_cbc_plain(c.key, iv, data);
        let k = sample_cryptor::picks(c.pattern, b);
        lemma_picked(x, c.pattern, d, b);
        lemma_before(c.pattern, b);
        if protects(c.pattern, b) {
            lemma_chain_back(c.key, iv, data, k);
            if let Some(p) = protected_before(c.pattern, b) {
                lemma_picked(x, c.pattern, d, p);
            }
        }
    }
}

/// Bytes behind the last whole block stay in the pattern mode.
pub proof fn partial_blocks_stay(c: CryptorView, forward: bool, iv: Seq<u8>, x: Seq<u8>, used: int)
    requires
        c.scheme is Cbcs,
    ensures
        ({
            let y = c.range(forward, iv, x, used);
            let n = 16 * (x.len() as int / 16);
            y.len() == x.len() && y.subrange(n, y.len() as int) == x.subrange(n, x.len() as int)
        }),
{
    let data = sample_cryptor::all_picked(x, c.pattern);
    let d = if forward {
        crypto::aes128_cbc_cipher(c.key, iv, data)
    } else {
        crypto::aes128_cbc_plain(c.key, iv, data)
    };
    let y = c.range(forward, iv, x, used);
    let n = x.len() / 16;
    sample_cryptor::lemma_placed_len(x, c.pattern, d, n);
    assert(y.subrange(16 * n as int, y.len() as int) =~= x.subrange(16 * n as int, x.len() as int));
}

} // verus!
