//! Search and cutting in text, held as a slice of characters.

use vstd::prelude::*;

verus! {

/// The characters of a string.
pub fn chars_of(s: &str) -> (out: Vec<char>)
    ensures
        out@ == s@,
{
    broadcast use vstd::string::axiom_spec_iter;

    let mut out: Vec<char> = Vec::new();
    for c in it: s.chars()
        invariant
            it.seq() == s@,
            out@ == s@.subrange(0, it.index() as int),
    {
        out.push(c);
        assert(out@ =~= s@.subrange(0, it.index() + 1));
    }
    assert(out@ =~= s@);
    out
}

/// The string made of the given characters.
pub fn string_of(s: &[char]) -> (out: String)
    ensures
        out@ == s@,
{
    let mut out: String = String::new();
    let mut i: usize = 0;
    assert(out@ =~= s@.subrange(0, 0));
    while i < s.len()
        invariant
            i <= s.len(),
            out@ == s@.subrange(0, i as int),
        decreases s.len() - i,
    {
        out.push(s[i]);
        i = i + 1;
        assert(out@ =~= s@.subrange(0, i as int));
    }
    assert(out@ =~= s@);
    out
}

/// Whether `p` stands at position `i` of `s`.
pub open spec fn stands_at(s: Seq<char>, p: Seq<char>, i: int) -> bool {
    0 <= i && i + p.len() <= s.len() && s.subrange(i, i + p.len()) == p
}

/// Whether `p` stands at position `i` of `s`.
#[verifier::loop_isolation(false)]
fn matches_at(s: &[char], p: &[char], i: usize) -> (yes: bool)
    ensures
        yes == stands_at(s@, p@, i as int),
{
    if i > s.len() || p.len() > s.len() - i {
        return false;
    }
    let mut k: usize = 0;
    while k < p.len()
        invariant
            k <= p.len(),
            forall|j: int| 0 <= j < k ==> s@[i + j] == p@[j],
        decreases p.len() - k,
    {
        if s[i + k] != p[k] {
            assert(s@.subrange(i as int, i + p@.len())[k as int] != p@[k as int]);
            return false;
        }
        k = k + 1;
    }
    assert(s@.subrange(i as int, i + p@.len()) =~= p@);
    true
}

/// Whether `s` starts with `p`.
pub open spec fn starts(s: Seq<char>, p: Seq<char>) -> bool {
    stands_at(s, p, 0)
}

/// Whether `s` starts with `p`.
pub fn starts_with(s: &[char], p: &str) -> (yes: bool)
    ensures
        yes == starts(s@, p@),
{
    matches_at(s, chars_of(p).as_slice(), 0)
}

/// Whether `s` ends with `p`.
pub open spec fn ends(s: Seq<char>, p: Seq<char>) -> bool {
    stands_at(s, p, s.len() - p.len())
}

/// Whether `s` ends with `p`.
pub fn ends_with(s: &[char], p: &str) -> (yes: bool)
    ensures
        yes == ends(s@, p@),
{
    let tail: Vec<char> = chars_of(p);
    tail.len() <= s.len() && matches_at(s, tail.as_slice(), s.len() - tail.len())
}

/// The first position from `i` on where `p` stands.
pub open spec fn find_from(s: Seq<char>, p: Seq<char>, i: int) -> Option<int>
    decreases s.len() + 1 - i,
{
    if i < 0 || i > s.len() {
        None
    } else if stands_at(s, p, i) {
        Some(i)
    } else {
        find_from(s, p, i + 1)
    }
}

/// A position as a number.
pub open spec fn opt_at(at: Option<usize>) -> Option<int> {
    match at {
        Some(k) => Some(k as int),
        None => None,
    }
}

/// The first position from `from` on where `p` stands.
#[verifier::loop_isolation(false)]
pub fn find(s: &[char], p: &[char], from: usize) -> (at: Option<usize>)
    requires
        from <= s.len(),
    ensures
        opt_at(at) == find_from(s@, p@, from as int),
        at matches Some(k) ==> from <= k && k + p@.len() <= s@.len(),
{
    let mut i: usize = from;
    while i < s.len()
        invariant
            from <= i <= s.len(),
            find_from(s@, p@, from as int) == find_from(s@, p@, i as int),
        decreases s.len() - i,
    {
        if matches_at(s, p, i) {
            return Some(i);
        }
        i = i + 1;
    }
    if matches_at(s, p, i) {
        return Some(i);
    }
    assert(find_from(s@, p@, (s@.len() + 1) as int) is None);
    None
}

/// Whether `p` stands anywhere in `s`.
pub open spec fn holds(s: Seq<char>, p: Seq<char>) -> bool {
    find_from(s, p, 0) is Some
}

/// Whether `p` stands anywhere in `s`.
pub fn contains(s: &[char], p: &str) -> (yes: bool)
    ensures
        yes == holds(s@, p@),
{
    find(s, chars_of(p).as_slice(), 0).is_some()
}

/// Whether `s` is the text `p`.
pub fn equals(s: &[char], p: &str) -> (yes: bool)
    ensures
        yes == (s@ == p@),
{
    let chars: Vec<char> = chars_of(p);
    let yes: bool = s.len() == chars.len() && matches_at(s, chars.as_slice(), 0);
    proof {
        if yes {
            assert(s@.subrange(0, s@.len() as int) =~= s@);
        } else if s@ == p@ {
            assert(s@.subrange(0, s@.len() as int) =~= s@);
        }
    }
    yes
}

/// The first position from `i` on where the character `c` stands, or the length.
pub open spec fn char_from(s: Seq<char>, c: char, i: int) -> int
    decreases s.len() - i,
{
    if i < 0 || i >= s.len() {
        s.len() as int
    } else if s[i] == c {
        i
    } else {
        char_from(s, c, i + 1)
    }
}

/// The first position from `from` on where the character `c` stands, or the length.
pub fn find_char(s: &[char], c: char, from: usize) -> (at: usize)
    requires
        from <= s.len(),
    ensures
        at == char_from(s@, c, from as int),
        from <= at <= s@.len(),
        at < s@.len() ==> s@[at as int] == c,
{
    let mut i: usize = from;
    while i < s.len()
        invariant
            from <= i <= s.len(),
            char_from(s@, c, from as int) == char_from(s@, c, i as int),
        decreases s.len() - i,
    {
        if s[i] == c {
            return i;
        }
        i = i + 1;
    }
    i
}

/// Where the character `c` is found, it stands.
pub proof fn lemma_char_from(s: Seq<char>, c: char, i: int)
    requires
        0 <= i <= s.len(),
    ensures
        i <= char_from(s, c, i) <= s.len(),
        char_from(s, c, i) < s.len() ==> s[char_from(s, c, i)] == c,
    decreases s.len() - i,
{
    if i < s.len() && s[i] != c {
        lemma_char_from(s, c, i + 1);
    }
}

/// The pieces between separators from `start` on, after those in `got`.
pub open spec fn pieces_from(s: Seq<char>, sep: char, start: int, got: Seq<Seq<char>>) -> Seq<
    Seq<char>,
>
    decreases s.len() + 1 - start,
{
    if start < 0 || start > s.len() {
        got
    } else {
        let end = char_from(s, sep, start);
        proof {
            lemma_char_from(s, sep, start);
        }
        pieces_from(s, sep, end + 1, got.push(s.subrange(start, end)))
    }
}

/// The pieces between separators; a text without any is one piece.
pub open spec fn pieces(s: Seq<char>, sep: char) -> Seq<Seq<char>> {
    pieces_from(s, sep, 0, Seq::empty())
}

/// The contents of a list of texts.
pub open spec fn texts_view(texts: Seq<Vec<char>>) -> Seq<Seq<char>> {
    texts.map_values(|t: Vec<char>| t@)
}

/// A copy of a slice of characters.
pub fn copy(s: &[char]) -> (out: Vec<char>)
    ensures
        out@ == s@,
{
    let mut out: Vec<char> = Vec::new();
    out.extend_from_slice(s);
    assert(out@ =~= s@);
    out
}

/// The pieces between separators.
#[verifier::loop_isolation(false)]
pub fn split(s: &[char], sep: char) -> (out: Vec<Vec<char>>)
    ensures
        texts_view(out@) == pieces(s@, sep),
{
    let mut out: Vec<Vec<char>> = Vec::new();
    let mut start: usize = 0;
    assert(texts_view(out@) =~= Seq::empty());
    loop
        invariant
            start <= s.len(),
            pieces(s@, sep) == pieces_from(s@, sep, start as int, texts_view(out@)),
        decreases s.len() - start,
    {
        let end: usize = find_char(s, sep, start);
        let ghost before = out@;
        let piece: Vec<char> = copy(&s[start..end]);
        out.push(piece);
        assert(texts_view(out@) =~= texts_view(before).push(
            s@.subrange(start as int, end as int),
        ));
        if end == s.len() {
            assert(pieces_from(s@, sep, end + 1, texts_view(out@)) == texts_view(out@));
            return out;
        }
        start = end + 1;
    }
}

/// Whether a character is white space (Unicode White_Space).
pub open spec fn is_space(c: char) -> bool {
    let n = c as u32;
    0x09 <= n <= 0x0D || n == 0x20 || n == 0x85 || n == 0xA0 || n == 0x1680 || 0x2000 <= n <= 0x200A
        || n == 0x2028 || n == 0x2029 || n == 0x202F || n == 0x205F || n == 0x3000
}

/// Whether a character is white space.
fn is_white(c: char) -> (yes: bool)
    ensures
        yes == is_space(c),
{
    let n: u32 = c as u32;
    (0x09 <= n && n <= 0x0D) || n == 0x20 || n == 0x85 || n == 0xA0 || n == 0x1680 || (0x2000 <= n
        && n <= 0x200A) || n == 0x2028 || n == 0x2029 || n == 0x202F || n == 0x205F || n == 0x3000
}

/// `s` without white space at its start.
pub open spec fn left_trimmed(s: Seq<char>) -> Seq<char>
    decreases s.len(),
{
    if s.len() > 0 && is_space(s[0]) {
        left_trimmed(s.subrange(1, s.len() as int))
    } else {
        s
    }
}

/// `s` without white space at its end.
pub open spec fn right_trimmed(s: Seq<char>) -> Seq<char>
    decreases s.len(),
{
    if s.len() > 0 && is_space(s[s.len() - 1]) {
        right_trimmed(s.subrange(0, s.len() - 1))
    } else {
        s
    }
}

/// `s` without white space at its ends.
pub open spec fn trimmed(s: Seq<char>) -> Seq<char> {
    right_trimmed(left_trimmed(s))
}

/// `s` without white space at its ends.
pub fn trim<'a>(s: &'a [char]) -> (out: &'a [char])
    ensures
        out@ == trimmed(s@),
{
    let mut from: usize = 0;
    assert(s@.subrange(0, s@.len() as int) =~= s@);
    while from < s.len() && is_white(s[from])
        invariant
            from <= s.len(),
            left_trimmed(s@) == left_trimmed(s@.subrange(from as int, s@.len() as int)),
        decreases s.len() - from,
    {
        assert(s@.subrange(from as int, s@.len() as int).subrange(1, s@.len() - from)
            =~= s@.subrange(from + 1, s@.len() as int));
        from = from + 1;
    }
    let ghost left = s@.subrange(from as int, s@.len() as int);
    assert(left_trimmed(s@) == left);
    let mut to: usize = s.len();
    while to > from && is_white(s[to - 1])
        invariant
            from <= to <= s.len(),
            right_trimmed(left) == right_trimmed(s@.subrange(from as int, to as int)),
        decreases to,
    {
        assert(s@.subrange(from as int, to as int).subrange(0, to - from - 1) =~= s@.subrange(
            from as int,
            to - 1,
        ));
        to = to - 1;
    }
    &s[from..to]
}

/// Whether a character is a decimal digit.
pub open spec fn is_digit(c: char) -> bool {
    '0' <= c <= '9'
}

/// The value of a decimal digit.
pub open spec fn digit_value(c: char) -> nat {
    (c as u32 - 0x30) as nat
}

/// Whether all characters are decimal digits.
pub open spec fn all_digits(s: Seq<char>) -> bool {
    forall|i: int| 0 <= i < s.len() ==> is_digit(#[trigger] s[i])
}

/// The number that decimal digits stand for.
pub open spec fn digits_value(s: Seq<char>) -> nat
    decreases s.len(),
{
    if s.len() == 0 {
        0
    } else {
        digits_value(s.drop_last()) * 10 + digit_value(s.last())
    }
}

/// A number without its plus sign.
pub open spec fn unsigned_part(s: Seq<char>) -> Seq<char> {
    if s.len() > 0 && s[0] == '+' {
        s.subrange(1, s.len() as int)
    } else {
        s
    }
}

/// The whole number up to `max` that a text stands for: decimal digits, with or without a
/// plus sign.
pub open spec fn number_of(s: Seq<char>, max: nat) -> Option<nat> {
    let d = unsigned_part(s);
    if d.len() > 0 && all_digits(d) && digits_value(d) <= max {
        Some(digits_value(d))
    } else {
        None
    }
}

/// Whether a character is a decimal digit.
pub fn is_decimal(c: char) -> (yes: bool)
    ensures
        yes == is_digit(c),
{
    '0' <= c && c <= '9'
}

/// The value of a decimal digit.
pub fn decimal_value(c: char) -> (v: u8)
    requires
        is_digit(c),
    ensures
        v == digit_value(c),
        v < 10,
{
    (c as u32 - 0x30) as u8
}

/// More digits make no smaller number.
pub proof fn lemma_digits_grow(s: Seq<char>, i: int)
    requires
        0 <= i <= s.len(),
    ensures
        digits_value(s.subrange(0, i)) <= digits_value(s),
    decreases s.len() - i,
{
    if i < s.len() {
        lemma_digits_grow(s, i + 1);
        assert(s.subrange(0, i + 1).drop_last() =~= s.subrange(0, i));
    } else {
        assert(s.subrange(0, i) =~= s);
    }
}

/// A number as the mathematical integer.
pub open spec fn opt_nat(n: Option<u64>) -> Option<nat> {
    match n {
        Some(v) => Some(v as nat),
        None => None,
    }
}

/// The whole number up to `max` that a text stands for.
#[verifier::loop_isolation(false)]
pub fn parse_number(s: &[char], max: u64) -> (n: Option<u64>)
    ensures
        opt_nat(n) == number_of(s@, max as nat),
        n matches Some(v) ==> v <= max,
{
    let d: &[char] = if s.len() > 0 && s[0] == '+' {
        &s[1..s.len()]
    } else {
        s
    };
    assert(d@ =~= unsigned_part(s@));
    if d.len() == 0 {
        return None;
    }
    let mut value: u64 = 0;
    let mut i: usize = 0;
    assert(d@.subrange(0, 0) =~= Seq::empty());
    while i < d.len()
        invariant
            i <= d.len(),
            value <= max,
            value == digits_value(d@.subrange(0, i as int)),
            forall|k: int| 0 <= k < i ==> is_digit(#[trigger] d@[k]),
        decreases d.len() - i,
    {
        if !is_decimal(d[i]) {
            assert(!all_digits(d@));
            return None;
        }
        let next: u128 = value as u128 * 10 + decimal_value(d[i]) as u128;
        assert(d@.subrange(0, i + 1).drop_last() =~= d@.subrange(0, i as int));
        assert(next == digits_value(d@.subrange(0, i + 1)));
        if next > max as u128 {
            proof {
                lemma_digits_grow(d@, i + 1);
            }
            return None;
        }
        value = next as u64;
        i = i + 1;
    }
    assert(d@.subrange(0, d@.len() as int) =~= d@);
    Some(value)
}

/// `s` with every occurrence of `p` from `i` on replaced by `with`, after `got`.
pub open spec fn replaced_from(
    s: Seq<char>,
    p: Seq<char>,
    with: Seq<char>,
    i: int,
    got: Seq<char>,
) -> Seq<char>
    decreases s.len() - i,
{
    if p.len() == 0 || i < 0 || i >= s.len() {
        got
    } else if stands_at(s, p, i) {
        replaced_from(s, p, with, i + p.len(), got + with)
    } else {
        replaced_from(s, p, with, i + 1, got.push(s[i]))
    }
}

/// `s` with every occurrence of `p` replaced by `with`, from left to right.
pub open spec fn replaced(s: Seq<char>, p: Seq<char>, with: Seq<char>) -> Seq<char> {
    replaced_from(s, p, with, 0, Seq::empty())
}

/// `s` with every occurrence of `p` replaced by `with`.
pub fn replace(s: &[char], p: &str, with: &str) -> (out: String)
    requires
        p@.len() > 0,
    ensures
        out@ == replaced(s@, p@, with@),
{
    let pattern: Vec<char> = chars_of(p);
    let mut out: String = String::new();
    let mut i: usize = 0;
    assert(out@ =~= Seq::empty());
    while i < s.len()
        invariant
            i <= s.len(),
            pattern@ == p@,
            p@.len() > 0,
            replaced(s@, p@, with@) == replaced_from(s@, p@, with@, i as int, out@),
        decreases s.len() - i,
    {
        if matches_at(s, pattern.as_slice(), i) {
            out.push_str(with);
            i = i + pattern.len();
        } else {
            out.push(s[i]);
            i = i + 1;
        }
    }
    out
}

} // verus!
