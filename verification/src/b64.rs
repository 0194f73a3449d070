//! Base64, through the `base64` crate.

use base64::Engine;
use vstd::prelude::*;

verus! {

/// The error of a failed decoding.
#[verifier::external_type_specification]
#[verifier::external_body]
pub struct ExDecodeError(base64::DecodeError);

/// The character of the standard alphabet for six bits.
pub open spec fn letter(v: int) -> char {
    if v < 26 {
        (0x41 + v) as char
    } else if v < 52 {
        (0x61 + v - 26) as char
    } else if v < 62 {
        (0x30 + v - 52) as char
    } else if v == 62 {
        '+'
    } else {
        '/'
    }
}

/// Bytes in the standard alphabet: four characters for every three bytes, the last group
/// filled up with `=`.
pub open spec fn encoded(b: Seq<u8>) -> Seq<char>
    decreases b.len(),
{
    if b.len() == 0 {
        Seq::empty()
    } else if b.len() == 1 {
        seq![letter(b[0] as int / 4), letter((b[0] as int % 4) * 16), '=', '=']
    } else if b.len() == 2 {
        seq![
            letter(b[0] as int / 4),
            letter((b[0] as int % 4) * 16 + b[1] as int / 16),
            letter((b[1] as int % 16) * 4),
            '=',
        ]
    } else {
        seq![
            letter(b[0] as int / 4),
            letter((b[0] as int % 4) * 16 + b[1] as int / 16),
            letter((b[1] as int % 16) * 4 + b[2] as int / 64),
            letter(b[2] as int % 64),
        ] + encoded(b.subrange(3, b.len() as int))
    }
}

/// `Engine::encode` of `base64::engine::general_purpose::STANDARD`: the standard alphabet
/// with padding.
#[verifier::external_body]
pub(crate) fn encode(bytes: &[u8]) -> (text: String)
    ensures
        text@ == encoded(bytes@),
{
    base64::engine::general_purpose::STANDARD.encode(bytes)
}

/// `Engine::decode` of `base64::engine::general_purpose::STANDARD`: gives back the bytes
/// that a text is the encoding of, and fails on a text that is none; padding is required and
/// unused bits have to be zero.
#[verifier::external_body]
pub(crate) fn decode(text: &str) -> (r: Result<Vec<u8>, base64::DecodeError>)
    ensures
        match r {
            Ok(bytes) => encoded(bytes@) == text@,
            Err(_) => forall|b: Seq<u8>| #[trigger] encoded(b) != text@,
        },
{
    base64::engine::general_purpose::STANDARD.decode(text)
}

/// Six bits are found again in their character, and no character is the filler.
proof fn lemma_letter(v: int, w: int)
    requires
        0 <= v < 64,
        0 <= w < 64,
    ensures
        letter(v) == letter(w) ==> v == w,
        letter(v) != '=',
{
}

/// Different bytes have different encodings.
pub proof fn encoding_is_unique(a: Seq<u8>, b: Seq<u8>)
    requires
        encoded(a) == encoded(b),
    ensures
        a == b,
    decreases a.len(),
{
    let ea = encoded(a);
    let eb = encoded(b);
    if a.len() == 0 || b.len() == 0 {
        assert(a.len() > 0 ==> ea.len() >= 4);
        assert(b.len() > 0 ==> eb.len() >= 4);
        assert(ea.len() == eb.len());
        assert(a =~= b);
    } else {
        assert(ea[0] == eb[0] && ea[1] == eb[1] && ea[2] == eb[2] && ea[3] == eb[3]);
        lemma_letter(a[0] as int / 4, b[0] as int / 4);
        let a1 = (a[0] as int % 4) * 16 + if a.len() > 1 {
            a[1] as int / 16
        } else {
            0
        };
        let b1 = (b[0] as int % 4) * 16 + if b.len() > 1 {
            b[1] as int / 16
        } else {
            0
        };
        lemma_letter(a1, b1);
        assert(a[0] == b[0]);
        if a.len() == 1 || b.len() == 1 {
            if a.len() > 1 {
                lemma_letter(
                    (a[1] as int % 16) * 4 + if a.len() > 2 {
                        a[2] as int / 64
                    } else {
                        0
                    },
                    0,
                );
            }
            if b.len() > 1 {
                lemma_letter(
                    (b[1] as int % 16) * 4 + if b.len() > 2 {
                        b[2] as int / 64
                    } else {
                        0
                    },
                    0,
                );
            }
            assert(a =~= b);
        } else {
            let a2 = (a[1] as int % 16) * 4 + if a.len() > 2 {
                a[2] as int / 64
            } else {
                0
            };
            let b2 = (b[1] as int % 16) * 4 + if b.len() > 2 {
                b[2] as int / 64
            } else {
                0
            };
            lemma_letter(a2, b2);
            assert(a[1] == b[1]);
            if a.len() == 2 || b.len() == 2 {
                if a.len() > 2 {
                    lemma_letter(a[2] as int % 64, 0);
                }
                if b.len() > 2 {
                    lemma_letter(b[2] as int % 64, 0);
                }
                assert(a =~= b);
            } else {
                lemma_letter(a[2] as int % 64, b[2] as int % 64);
                assert(a[2] == b[2]);
                let ra = a.subrange(3, a.len() as int);
                let rb = b.subrange(3, b.len() as int);
                assert(encoded(ra) =~= ea.subrange(4, ea.len() as int));
                assert(encoded(rb) =~= eb.subrange(4, eb.len() as int));
                encoding_is_unique(ra, rb);
                assert(a =~= seq![a[0], a[1], a[2]] + ra);
                assert(b =~= seq![b[0], b[1], b[2]] + rb);
            }
        }
    }
}

/// The bytes that a text is the encoding of.
pub open spec fn decoded(text: Seq<char>) -> Option<Seq<u8>> {
    if exists|b: Seq<u8>| #[trigger] encoded(b) == text {
        Some(choose|b: Seq<u8>| #[trigger] encoded(b) == text)
    } else {
        None
    }
}

/// Decoding gives back what was encoded.
pub proof fn decode_after_encode(b: Seq<u8>)
    ensures
        decoded(encoded(b)) == Some(b),
{
    let c = choose|c: Seq<u8>| #[trigger] encoded(c) == encoded(b);
    encoding_is_unique(c, b);
}

} // verus!
