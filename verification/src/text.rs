//! Text as sequences of characters, and the numbers written in it.

use crate::bytes;
use vstd::prelude::*;

verus! {

/// The text that `String::from_utf8_lossy` reads in a byte sequence.
pub uninterp spec fn lossy_text(bytes: Seq<u8>) -> Seq<char>;

/// `String::from_utf8_lossy`: decodes bytes as UTF-8. Bytes that are valid UTF-8
/// are decoded exactly; how malformed ones are replaced is left to the name
/// [`lossy_text`].
#[verifier::external_body]
pub(crate) fn utf8_lossy(bytes: &[u8]) -> (text: String)
    ensures
        text@ == lossy_text(bytes@),
        vstd::utf8::valid_utf8(bytes@) ==> text@ == vstd::utf8::decode_utf8(bytes@),
{
    String::from_utf8_lossy(bytes).into_owned()
}

/// The text that `str::to_lowercase` makes of a text.
pub uninterp spec fn lowercase(s: Seq<char>) -> Seq<char>;

/// A text with its ASCII capital letters made small.
pub open spec fn ascii_lower(s: Seq<char>) -> Seq<char> {
    s.map_values(
        |c: char|
            if 'A' <= c <= 'Z' {
                (c as u32 + 32) as char
            } else {
                c
            },
    )
}

/// `str::to_lowercase`: the text in small letters. ASCII text changes in its ASCII capital
/// letters only; the mapping of other characters is left to the name [`lowercase`].
#[verifier::external_body]
pub(crate) fn to_lower(s: &str) -> (out: String)
    ensures
        out@ == lowercase(s@),
        vstd::string::is_ascii(s) ==> out@ == ascii_lower(s@),
{
    s.to_lowercase()
}

/// `String::push` appends one character.
pub assume_specification[ String::push ](s: &mut String, c: char)
    ensures
        final(s)@ == old(s)@.push(c),
;

/// `String::push_str` appends a string slice.
pub assume_specification[ String::push_str ](s: &mut String, tail: &str)
    ensures
        final(s)@ == old(s)@ + tail@,
;

/// The decimal digit for `d`.
pub open spec fn digit(d: int) -> char {
    (0x30 + d) as char
}

/// The lower-case hexadecimal digit for `d`.
pub open spec fn hex_digit(d: int) -> char {
    if d < 10 {
        (0x30 + d) as char
    } else {
        (0x57 + d) as char
    }
}

/// The upper-case hexadecimal digit for `d`.
pub open spec fn hex_digit_upper(d: int) -> char {
    if d < 10 {
        (0x30 + d) as char
    } else {
        (0x37 + d) as char
    }
}

/// `n` in decimal, without leading zeros.
pub open spec fn dec(n: nat) -> Seq<char>
    decreases n,
{
    if n < 10 {
        seq![digit(n as int)]
    } else {
        dec(n / 10).push(digit((n % 10) as int))
    }
}

/// `n` in decimal with at least `width` digits, filled up with zeros.
pub open spec fn dec_padded(n: nat, width: nat) -> Seq<char> {
    if dec(n).len() >= width {
        dec(n)
    } else {
        Seq::new((width - dec(n).len()) as nat, |i: int| '0') + dec(n)
    }
}

/// A byte as two lower-case hexadecimal digits.
pub open spec fn hex2(b: u8) -> Seq<char> {
    seq![hex_digit(b as int / 16), hex_digit(b as int % 16)]
}

/// A byte as two upper-case hexadecimal digits.
pub open spec fn hex2_upper(b: u8) -> Seq<char> {
    seq![hex_digit_upper(b as int / 16), hex_digit_upper(b as int % 16)]
}

/// `n` in upper-case hexadecimal, without leading zeros.
pub open spec fn hex_upper(n: nat) -> Seq<char>
    decreases n,
{
    if n < 16 {
        seq![hex_digit_upper(n as int)]
    } else {
        hex_upper(n / 16).push(hex_digit_upper((n % 16) as int))
    }
}

/// Appends `n` in upper-case hexadecimal.
pub fn put_hex_upper(out: &mut String, n: u64)
    ensures
        final(out)@ == old(out)@ + hex_upper(n as nat),
    decreases n,
{
    if n >= 16 {
        put_hex_upper(out, n / 16);
    }
    let d: u8 = (n % 16) as u8;
    put_hex_digit_upper(out, d);
    assert(out@ =~= old(out)@ + hex_upper(n as nat));
}

/// Appends `n` in decimal.
pub fn put_dec(out: &mut String, n: u64)
    ensures
        final(out)@ == old(out)@ + dec(n as nat),
{
    put_long(out, n as u128);
}

/// Appends a long `n` in decimal.
pub fn put_long(out: &mut String, n: u128)
    ensures
        final(out)@ == old(out)@ + dec(n as nat),
    decreases n,
{
    if n >= 10 {
        put_long(out, n / 10);
    }
    let d: u8 = (n % 10) as u8;
    out.push((0x30 + d) as char);
    assert(out@ =~= old(out)@ + dec(n as nat));
}

fn put_hex_digit(out: &mut String, d: u8)
    requires
        d < 16,
    ensures
        final(out)@ == old(out)@.push(hex_digit(d as int)),
{
    if d < 10 {
        out.push((0x30 + d) as char);
    } else {
        out.push((0x57 + d) as char);
    }
}

fn put_hex_digit_upper(out: &mut String, d: u8)
    requires
        d < 16,
    ensures
        final(out)@ == old(out)@.push(hex_digit_upper(d as int)),
{
    if d < 10 {
        out.push((0x30 + d) as char);
    } else {
        out.push((0x37 + d) as char);
    }
}

/// Appends a byte as two lower-case hexadecimal digits.
pub fn put_hex2(out: &mut String, b: u8)
    ensures
        final(out)@ == old(out)@ + hex2(b),
{
    put_hex_digit(out, b / 16);
    put_hex_digit(out, b % 16);
    assert(out@ =~= old(out)@ + hex2(b));
}

/// Appends a byte as two upper-case hexadecimal digits.
pub fn put_hex2_upper(out: &mut String, b: u8)
    ensures
        final(out)@ == old(out)@ + hex2_upper(b),
{
    put_hex_digit_upper(out, b / 16);
    put_hex_digit_upper(out, b % 16);
    assert(out@ =~= old(out)@ + hex2_upper(b));
}

/// The number of decimal digits of `n`.
pub fn dec_len(n: u64) -> (len: usize)
    ensures
        len == dec(n as nat).len(),
        1 <= len <= 20,
{
    let mut rest: u64 = n;
    let mut len: usize = 1;
    while rest >= 10
        invariant
            dec(n as nat).len() == len - 1 + dec(rest as nat).len(),
            1 <= len <= 20,
            len == 1 ==> rest <= 18446744073709551615,
            len == 2 ==> rest <= 1844674407370955161,
            len == 3 ==> rest <= 184467440737095516,
            len == 4 ==> rest <= 18446744073709551,
            len == 5 ==> rest <= 1844674407370955,
            len == 6 ==> rest <= 184467440737095,
            len == 7 ==> rest <= 18446744073709,
            len == 8 ==> rest <= 1844674407370,
            len == 9 ==> rest <= 184467440737,
            len == 10 ==> rest <= 18446744073,
            len == 11 ==> rest <= 1844674407,
            len == 12 ==> rest <= 184467440,
            len == 13 ==> rest <= 18446744,
            len == 14 ==> rest <= 1844674,
            len == 15 ==> rest <= 184467,
            len == 16 ==> rest <= 18446,
            len == 17 ==> rest <= 1844,
            len == 18 ==> rest <= 184,
            len == 19 ==> rest <= 18,
            len == 20 ==> rest <= 1,
        decreases rest,
    {
        rest = rest / 10;
        len = len + 1;
    }
    len
}

/// Appends `n` in decimal with at least `width` digits.
pub fn put_dec_padded(out: &mut String, n: u64, width: usize)
    ensures
        final(out)@ == old(out)@ + dec_padded(n as nat, width as nat),
{
    let len: usize = dec_len(n);
    let mut i: usize = len;
    let ghost before = out@;
    while i < width
        invariant
            len <= i,
            i <= width || i == len,
            out@ == before + Seq::new((i - len) as nat, |k: int| '0'),
        decreases width - i,
    {
        out.push('0');
        i = i + 1;
        assert(out@ =~= before + Seq::new((i - len) as nat, |k: int| '0'));
    }
    put_dec(out, n);
    assert(out@ =~= before + dec_padded(n as nat, width as nat));
}


/// Whether two texts are the same.
pub fn same_text(a: &str, b: &str) -> (same: bool)
    ensures
        same == (a@ == b@),
{
    let same: bool = bytes::same_bytes(a.as_bytes(), b.as_bytes());
    proof {
        vstd::utf8::encode_utf8_decode_utf8(a@);
        vstd::utf8::encode_utf8_decode_utf8(b@);
    }
    same
}

} // verus!
