//! Decimal numbers with nine digits after the point: durations in seconds, frame rates.

use crate::chars;
use crate::text;
use vstd::prelude::*;

verus! {

/// A number as a count of billionths. Sums and numbers that are read are exact. The ends of the
/// range stand for infinity, and so for whatever is past them.
#[derive(Debug, Clone, Copy, PartialEq, Eq, Structural)]
pub struct Decimal {
    pub nanos: i128,
}

/// A count of billionths, moved into range.
pub open spec fn fit(n: int) -> Decimal {
    Decimal {
        nanos: (if n > i128::MAX {
            i128::MAX as int
        } else if n < i128::MIN {
            i128::MIN as int
        } else {
            n
        }) as i128,
    }
}

/// Ten to the power `n`.
pub open spec fn ten_to(n: nat) -> nat
    decreases n,
{
    if n == 0 {
        1
    } else {
        10 * ten_to((n - 1) as nat)
    }
}

/// The first `n` digits, filled up with zeros, as a number.
pub open spec fn leading_value(s: Seq<char>, n: nat) -> nat
    decreases n,
{
    if n == 0 {
        0
    } else {
        leading_value(s, (n - 1) as nat) * 10 + (if n - 1 < s.len() {
            chars::digit_value(s[n - 1])
        } else {
            0
        })
    }
}

/// A number without its sign.
pub open spec fn magnitude_part(s: Seq<char>) -> Seq<char> {
    if s.len() > 0 && (s[0] == '+' || s[0] == '-') {
        s.subrange(1, s.len() as int)
    } else {
        s
    }
}

/// The digits before the point.
pub open spec fn whole_part(u: Seq<char>) -> Seq<char> {
    u.subrange(0, chars::char_from(u, '.', 0))
}

/// The digits after the point.
pub open spec fn fraction_part(u: Seq<char>) -> Seq<char> {
    if chars::char_from(u, '.', 0) < u.len() {
        u.subrange(chars::char_from(u, '.', 0) + 1, u.len() as int)
    } else {
        Seq::empty()
    }
}

/// The index of the first exponent mark from `i` on, or the length.
pub open spec fn mark_from(u: Seq<char>, i: int) -> int
    decreases u.len() - i,
{
    if i < 0 || i >= u.len() {
        u.len() as int
    } else if u[i] == 'e' || u[i] == 'E' {
        i
    } else {
        mark_from(u, i + 1)
    }
}

/// The digits and the point in front of the exponent.
pub open spec fn mantissa(u: Seq<char>) -> Seq<char> {
    u.subrange(0, mark_from(u, 0))
}

/// The power of ten behind the mark, zero without a mark: digits with a sign in front.
pub open spec fn exponent(u: Seq<char>) -> Option<int> {
    if mark_from(u, 0) >= u.len() {
        Some(0)
    } else {
        let e = u.subrange(mark_from(u, 0) + 1, u.len() as int);
        let digits = magnitude_part(e);
        if digits.len() == 0 || !chars::all_digits(digits) {
            None
        } else if e[0] == '-' {
            Some(-(chars::digits_value(digits) as int))
        } else {
            Some(chars::digits_value(digits) as int)
        }
    }
}

/// How many billionths digits stand for, with the point behind the first `point` of them; what
/// is less than a billionth is cut off.
pub open spec fn billionths(digits: Seq<char>, point: int) -> nat {
    if point + 9 <= 0 {
        0
    } else {
        leading_value(digits, (point + 9) as nat)
    }
}

/// How many billionths an unsigned text stands for: digits with at most one point among them, and
/// a power of ten behind. Digits after the ninth decimal place are cut off.
pub open spec fn magnitude(u: Seq<char>) -> Option<nat> {
    let whole = whole_part(mantissa(u));
    let fraction = fraction_part(mantissa(u));
    match exponent(u) {
        None => None,
        Some(e) => if whole.len() + fraction.len() == 0 || !chars::all_digits(whole)
            || !chars::all_digits(fraction) {
            None
        } else {
            Some(billionths(whole + fraction, whole.len() + e))
        },
    }
}

/// The number that a text stands for: a number or a word for one, with a sign in front. What is
/// no number counts as zero.
pub open spec fn decimal_of(s: Seq<char>) -> Option<Decimal> {
    let u = magnitude_part(s);
    let word = text::ascii_lower(u);
    if word == "inf"@ || word == "infinity"@ {
        Some(
            Decimal {
                nanos: if s[0] == '-' {
                    i128::MIN
                } else {
                    i128::MAX
                },
            },
        )
    } else if word == "nan"@ {
        Some(Decimal { nanos: 0 })
    } else {
        match magnitude(u) {
            None => None,
            Some(n) => if s[0] == '-' {
                Some(fit(-n))
            } else {
                Some(fit(n as int))
            },
        }
    }
}

/// The nearest whole number to `n` over `unit`, the even one of two that are as near.
pub open spec fn rounded(n: nat, unit: nat) -> nat {
    let q = n / unit;
    let rest = n % unit;
    if rest * 2 > unit || (rest * 2 == unit && q % 2 == 1) {
        q + 1
    } else {
        q
    }
}

/// A count, as far as 64 bits count.
pub open spec fn counted(n: nat) -> nat {
    if n > u64::MAX {
        u64::MAX as nat
    } else {
        n
    }
}

impl Decimal {
    /// The size of the number, without its sign.
    pub open spec fn size(self) -> nat {
        if self.nanos < 0 {
            (-self.nanos) as nat
        } else {
            self.nanos as nat
        }
    }

    /// The minus sign of a negative number.
    pub open spec fn sign(self) -> Seq<char> {
        if self.nanos < 0 {
            "-"@
        } else {
            Seq::empty()
        }
    }

    /// Whether the number stands for infinity.
    pub open spec fn infinite(self) -> bool {
        self.nanos == i128::MAX || self.nanos == i128::MIN
    }

    /// The number with a fixed count of decimal places, rounded to the nearest, ties to even.
    pub open spec fn fixed(self, places: nat) -> Seq<char> {
        let unit = ten_to((9 - places) as nat);
        let scaled = rounded(self.size(), unit);
        if self.infinite() {
            self.sign() + "inf"@
        } else {
            self.sign() + text::dec(scaled / ten_to(places)) + "."@ + text::dec_padded(
                scaled % ten_to(places),
                places,
            )
        }
    }

    /// The digits after the point down to the last that is not zero.
    pub open spec fn short_fraction(n: nat, width: nat) -> Seq<char>
        decreases width,
    {
        if width == 0 || n % 10 != 0 {
            text::dec_padded(n, width)
        } else {
            Self::short_fraction(n / 10, (width - 1) as nat)
        }
    }

    /// The number with as many decimal places as it needs.
    pub open spec fn shortest(self) -> Seq<char> {
        let whole = self.sign() + text::dec(self.size() / 1_000_000_000);
        if self.infinite() {
            self.sign() + "inf"@
        } else if self.size() % 1_000_000_000 == 0 {
            whole
        } else {
            whole + "."@ + Self::short_fraction(self.size() % 1_000_000_000, 9)
        }
    }

    /// The next whole number up, as far as 64 bits count; zero for a negative number.
    pub open spec fn ceiling(self) -> nat {
        if self.nanos <= 0 {
            0
        } else {
            counted((self.nanos + 999_999_999) as nat / 1_000_000_000)
        }
    }

    /// The number in parts of one `scale`th, rounded down, as far as 64 bits count; zero for a
    /// negative number.
    pub open spec fn in_ticks(self, scale: nat) -> nat {
        if self.nanos <= 0 {
            0
        } else {
            counted((self.nanos as nat * scale) / 1_000_000_000)
        }
    }

    /// The sum of two numbers. Infinity takes in whatever is added to it; with its opposite it
    /// makes no number, which counts as zero.
    pub open spec fn sum(self, other: Decimal) -> Decimal {
        if self.infinite() && other.infinite() && self != other {
            Decimal { nanos: 0 }
        } else if self.infinite() {
            self
        } else if other.infinite() {
            other
        } else {
            fit(self.nanos + other.nanos)
        }
    }

    /// The number taken `n` times, moved into range.
    pub open spec fn taken(self, n: int) -> Decimal {
        fit(self.nanos * n)
    }

    /// The number with `n` whole units.
    pub fn from_units(n: u32) -> (d: Decimal)
        ensures
            d.nanos == n * 1_000_000_000,
    {
        Decimal { nanos: n as i128 * 1_000_000_000 }
    }

    /// Whether the number stands for infinity.
    pub fn is_infinite(self) -> (yes: bool)
        ensures
            yes == self.infinite(),
    {
        self.nanos == i128::MAX || self.nanos == i128::MIN
    }

    /// The sum of two numbers.
    pub fn plus(self, other: Decimal) -> (d: Decimal)
        ensures
            d == self.sum(other),
    {
        if self.is_infinite() && other.is_infinite() && self.nanos != other.nanos {
            Decimal { nanos: 0 }
        } else if self.is_infinite() {
            self
        } else if other.is_infinite() {
            other
        } else if other.nanos > 0 && self.nanos > i128::MAX - other.nanos {
            Decimal { nanos: i128::MAX }
        } else if other.nanos < 0 && self.nanos < i128::MIN - other.nanos {
            Decimal { nanos: i128::MIN }
        } else {
            Decimal { nanos: self.nanos + other.nanos }
        }
    }

    /// The number taken `n` times, moved into range.
    pub fn times(self, n: u16) -> (d: Decimal)
        ensures
            d == self.taken(n as int),
    {
        if n == 0 {
            assert(self.nanos * 0 == 0);
            return Decimal { nanos: 0 };
        }
        let size: u128 = self.abs();
        let most: u128 = i128::MAX as u128;
        if size > most / n as u128 {
            assert(size * n > most) by (nonlinear_arith)
                requires
                    size >= most as int / n as int + 1,
                    n >= 1,
            ;
            assert(self.nanos < 0 ==> self.nanos * n == -(size * n)) by (nonlinear_arith)
                requires
                    self.nanos < 0 ==> self.nanos == -size,
            ;
            return Decimal {
                nanos: if self.nanos < 0 {
                    i128::MIN
                } else {
                    i128::MAX
                },
            };
        }
        assert(size * n <= most) by (nonlinear_arith)
            requires
                size <= most as int / n as int,
                n >= 1,
        ;
        assert(self.nanos < 0 ==> self.nanos * n == -(size * n)) by (nonlinear_arith)
            requires
                self.nanos < 0 ==> self.nanos == -size,
        ;
        Decimal { nanos: self.nanos * n as i128 }
    }

    /// A count of ticks in units, rounded down to nine places; infinity for a scale of zero,
    /// and no number, which counts as zero, for no ticks then.
    pub fn from_ticks(ticks: u64, scale: u64) -> (d: Decimal)
        ensures
            d == of_ticks(ticks as nat, scale as nat),
    {
        if scale == 0 {
            return if ticks == 0 {
                Decimal { nanos: 0 }
            } else {
                Decimal { nanos: i128::MAX }
            };
        }
        let n: u128 = ticks as u128 * 1_000_000_000 / scale as u128;
        assert(n == (ticks as nat * 1_000_000_000) / scale as nat);
        assert(n <= ticks * 1_000_000_000) by (nonlinear_arith)
            requires
                n == (ticks as nat * 1_000_000_000) / scale as nat,
                scale > 0,
        ;
        Decimal { nanos: n as i128 }
    }

    /// The size of the number, without its sign.
    fn abs(self) -> (n: u128)
        ensures
            n == self.size(),
            n <= 0x8000_0000_0000_0000_0000_0000_0000_0000,
    {
        if self.nanos >= 0 {
            self.nanos as u128
        } else if self.nanos == i128::MIN {
            0x8000_0000_0000_0000_0000_0000_0000_0000
        } else {
            (-self.nanos) as u128
        }
    }

    /// The next whole number up; zero for a negative number.
    pub fn ceil(self) -> (n: u64)
        ensures
            n == self.ceiling(),
    {
        if self.nanos <= 0 {
            0
        } else {
            count_of((self.nanos as u128 + 999_999_999) / 1_000_000_000)
        }
    }

    /// The number in parts of one `scale`th, rounded down.
    pub fn ticks(self, scale: u32) -> (n: u64)
        requires
            1 <= scale,
        ensures
            n == self.in_ticks(scale as nat),
    {
        if self.nanos <= 0 {
            return 0;
        }
        let nanos: u128 = self.nanos as u128;
        if nanos > u128::MAX / scale as u128 {
            assert(nanos * scale >= u128::MAX) by (nonlinear_arith)
                requires
                    nanos >= u128::MAX as int / scale as int + 1,
                    scale >= 1,
            ;
            return u64::MAX;
        }
        assert(nanos * scale <= u128::MAX) by (nonlinear_arith)
            requires
                nanos <= u128::MAX as int / scale as int,
                scale >= 1,
        ;
        count_of(nanos * scale as u128 / 1_000_000_000)
    }

    /// Appends infinity with its sign.
    fn put_infinity(self, out: &mut String)
        ensures
            final(out)@ == old(out)@ + (self.sign() + "inf"@),
    {
        if self.nanos < 0 {
            out.push_str("-");
        } else {
            assert(out@ =~= out@ + Seq::<char>::empty());
        }
        out.push_str("inf");
        assert(out@ =~= old(out)@ + (self.sign() + "inf"@));
    }

    /// Appends the number with a fixed count of decimal places.
    pub fn put_fixed(self, out: &mut String, places: u8)
        requires
            places <= 9,
        ensures
            final(out)@ == old(out)@ + self.fixed(places as nat),
    {
        if self.is_infinite() {
            self.put_infinity(out);
            return ;
        }
        let unit: u128 = power_of_ten(9 - places);
        let shown: u128 = power_of_ten(places);
        let whole: u128 = self.abs() / unit;
        let rest: u128 = self.abs() % unit;
        let up: bool = rest * 2 > unit || (rest * 2 == unit && whole % 2 == 1);
        let scaled: u128 = if up {
            whole + 1
        } else {
            whole
        };
        if self.nanos < 0 {
            out.push_str("-");
        } else {
            assert(out@ =~= out@ + Seq::<char>::empty());
        }
        text::put_long(out, scaled / shown);
        out.push_str(".");
        text::put_dec_padded(out, (scaled % shown) as u64, places as usize);
        assert(out@ =~= old(out)@ + self.fixed(places as nat));
    }

    /// Appends the number with as many decimal places as it needs.
    pub fn put_shortest(self, out: &mut String)
        ensures
            final(out)@ == old(out)@ + self.shortest(),
    {
        if self.is_infinite() {
            self.put_infinity(out);
            return ;
        }
        let size: u128 = self.abs();
        if self.nanos < 0 {
            out.push_str("-");
        } else {
            assert(out@ =~= out@ + Seq::<char>::empty());
        }
        text::put_long(out, size / 1_000_000_000);
        let mut n: u64 = (size % 1_000_000_000) as u64;
        if n == 0 {
            assert(out@ =~= old(out)@ + self.shortest());
            return ;
        }
        out.push_str(".");
        let mut width: usize = 9;
        while width > 0 && n % 10 == 0
            invariant
                width <= 9,
                Decimal::short_fraction((size % 1_000_000_000) as nat, 9)
                    == Decimal::short_fraction(n as nat, width as nat),
            decreases width,
        {
            n = n / 10;
            width = width - 1;
        }
        text::put_dec_padded(out, n, width);
        assert(out@ =~= old(out)@ + self.shortest());
    }

    /// The number that a text stands for.
    #[verifier::loop_isolation(false)]
    pub fn parse(s: &[char]) -> (d: Option<Decimal>)
        ensures
            d == decimal_of(s@),
    {
        let u: &[char] = if s.len() > 0 && (s[0] == '+' || s[0] == '-') {
            &s[1..s.len()]
        } else {
            s
        };
        assert(u@ =~= magnitude_part(s@));
        proof {
            reveal_strlit("inf");
            reveal_strlit("infinity");
            reveal_strlit("nan");
        }
        let below: bool = s.len() > 0 && s[0] == '-';
        if spells(u, "inf") || spells(u, "infinity") {
            assert(text::ascii_lower(u@).len() == u@.len());
            assert(s@.len() > 0);
            return Some(
                Decimal {
                    nanos: if below {
                        i128::MIN
                    } else {
                        i128::MAX
                    },
                },
            );
        }
        if spells(u, "nan") {
            return Some(Decimal { nanos: 0 });
        }
        let mark: usize = find_mark(u);
        let m: &[char] = &u[0..mark];
        assert(m@ =~= mantissa(u@));
        let dot: usize = chars::find_char(m, '.', 0);
        let whole: &[char] = &m[0..dot];
        let fraction: &[char] = if dot < m.len() {
            &m[dot + 1..m.len()]
        } else {
            &m[dot..m.len()]
        };
        assert(whole@ =~= whole_part(m@));
        assert(fraction@ =~= fraction_part(m@));
        let e: Power = match read_exponent(u, mark) {
            Some(e) => e,
            None => return None,
        };
        if whole.len() == 0 && fraction.len() == 0 {
            return None;
        }
        if !only_digits(whole) || !only_digits(fraction) {
            return None;
        }
        let digits: Vec<char> = joined(whole, fraction);
        let ghost x = exponent(u@)->0;
        assert(magnitude(u@) == Some(billionths(digits@, whole.len() + x)));
        match read_billionths(digits.as_slice(), whole.len(), e) {
            Some(n) => if below {
                Some(Decimal { nanos: -(n as i128) })
            } else {
                Some(Decimal { nanos: n as i128 })
            },
            None => if below {
                Some(Decimal { nanos: i128::MIN })
            } else {
                Some(Decimal { nanos: i128::MAX })
            },
        }
    }
}

/// A count, as far as 64 bits count.
pub fn count_of(n: u128) -> (c: u64)
    ensures
        c == counted(n as nat),
{
    if n > u64::MAX as u128 {
        u64::MAX
    } else {
        n as u64
    }
}

/// Whether a text is a word, in large letters or in small ones.
#[verifier::loop_isolation(false)]
fn spells(u: &[char], word: &str) -> (yes: bool)
    ensures
        yes == (text::ascii_lower(u@) == word@),
{
    let w: Vec<char> = chars::chars_of(word);
    if u.len() != w.len() {
        return false;
    }
    let mut i: usize = 0;
    while i < u.len()
        invariant
            i <= u.len(),
            forall|k: int| 0 <= k < i ==> text::ascii_lower(u@)[k] == #[trigger] w@[k],
        decreases u.len() - i,
    {
        let c: char = if 'A' <= u[i] && u[i] <= 'Z' {
            (u[i] as u8 + 32) as char
        } else {
            u[i]
        };
        assert(c == text::ascii_lower(u@)[i as int]);
        if c != w[i] {
            return false;
        }
        i = i + 1;
    }
    assert(text::ascii_lower(u@) =~= word@);
    true
}

/// Ten to the power `n`.
fn power_of_ten(n: u8) -> (p: u128)
    requires
        n <= 9,
    ensures
        p == ten_to(n as nat),
        1 <= p <= 1_000_000_000,
{
    proof {
        reveal_with_fuel(ten_to, 11);
    }
    match n {
        0 => 1,
        1 => 10,
        2 => 100,
        3 => 1_000,
        4 => 10_000,
        5 => 100_000,
        6 => 1_000_000,
        7 => 10_000_000,
        8 => 100_000_000,
        _ => 1_000_000_000,
    }
}

/// Whether all characters are decimal digits.
#[verifier::loop_isolation(false)]
fn only_digits(s: &[char]) -> (yes: bool)
    ensures
        yes == chars::all_digits(s@),
{
    let mut i: usize = 0;
    while i < s.len()
        invariant
            i <= s.len(),
            forall|k: int| 0 <= k < i ==> chars::is_digit(#[trigger] s@[k]),
        decreases s.len() - i,
    {
        if !chars::is_decimal(s[i]) {
            return false;
        }
        i = i + 1;
    }
    true
}

/// The number that decimal digits stand for, where it is one of 80 bits.
#[verifier::loop_isolation(false)]
fn digits_number(s: &[char]) -> (n: Option<u128>)
    requires
        chars::all_digits(s@),
    ensures
        n matches Some(v) ==> v == chars::digits_value(s@) && v < 0x1_0000_0000_0000_0000_0000,
        n is None ==> chars::digits_value(s@) >= 0x1_0000_0000_0000_0000_0000,
{
    let mut value: u128 = 0;
    let mut i: usize = 0;
    assert(s@.subrange(0, 0) =~= Seq::empty());
    while i < s.len()
        invariant
            i <= s.len(),
            value == chars::digits_value(s@.subrange(0, i as int)),
            value < 0x1_0000_0000_0000_0000_0000,
        decreases s.len() - i,
    {
        let next: u128 = value * 10 + chars::decimal_value(s[i]) as u128;
        assert(s@.subrange(0, i + 1).drop_last() =~= s@.subrange(0, i as int));
        if next >= 0x1_0000_0000_0000_0000_0000 {
            proof {
                chars::lemma_digits_grow(s@, i + 1);
            }
            return None;
        }
        value = next;
        i = i + 1;
    }
    assert(s@.subrange(0, s@.len() as int) =~= s@);
    Some(value)
}

/// A power of ten: whether it is below zero, and its size; `None` where that is past 80 bits.
struct Power {
    below: bool,
    size: Option<u128>,
}

impl Power {
    /// Whether this is the power `e`.
    spec fn is(self, e: int) -> bool {
        match self.size {
            Some(n) => n < 0x1_0000_0000_0000_0000_0000 && e == if self.below {
                -(n as int)
            } else {
                n as int
            },
            None => if self.below {
                e <= -0x1_0000_0000_0000_0000_0000
            } else {
                e >= 0x1_0000_0000_0000_0000_0000
            },
        }
    }
}

/// The index of the first exponent mark, or the length.
fn find_mark(u: &[char]) -> (at: usize)
    ensures
        at == mark_from(u@, 0),
        at <= u@.len(),
{
    let mut i: usize = 0;
    while i < u.len()
        invariant
            i <= u.len(),
            mark_from(u@, 0) == mark_from(u@, i as int),
        decreases u.len() - i,
    {
        if u[i] == 'e' || u[i] == 'E' {
            return i;
        }
        i = i + 1;
    }
    i
}

/// The power of ten behind the mark.
fn read_exponent(u: &[char], mark: usize) -> (p: Option<Power>)
    requires
        mark == mark_from(u@, 0),
        mark <= u@.len(),
    ensures
        match exponent(u@) {
            Some(e) => p is Some && (p->0).is(e),
            None => p is None,
        },
{
    if mark >= u.len() {
        return Some(Power { below: false, size: Some(0) });
    }
    let e: &[char] = &u[mark + 1..u.len()];
    let digits: &[char] = if e.len() > 0 && (e[0] == '+' || e[0] == '-') {
        &e[1..e.len()]
    } else {
        e
    };
    assert(digits@ =~= magnitude_part(e@));
    if digits.len() == 0 || !only_digits(digits) {
        return None;
    }
    Some(Power { below: e[0] == '-', size: digits_number(digits) })
}

/// Two runs of characters as one.
fn joined(a: &[char], b: &[char]) -> (out: Vec<char>)
    ensures
        out@ == a@ + b@,
{
    let mut out: Vec<char> = Vec::new();
    let mut i: usize = 0;
    while i < a.len()
        invariant
            i <= a.len(),
            out@ == a@.take(i as int),
        decreases a.len() - i,
    {
        out.push(a[i]);
        i = i + 1;
        assert(out@ =~= a@.take(i as int));
    }
    let mut k: usize = 0;
    assert(out@ =~= a@ + b@.take(0));
    while k < b.len()
        invariant
            k <= b.len(),
            out@ == a@ + b@.take(k as int),
        decreases b.len() - k,
    {
        out.push(b[k]);
        k = k + 1;
        assert(out@ =~= a@ + b@.take(k as int));
    }
    assert(b@.take(k as int) =~= b@);
    out
}

pub proof fn lemma_leading_grows(s: Seq<char>, m: nat, n: nat)
    requires
        m <= n,
    ensures
        leading_value(s, m) <= leading_value(s, n),
    decreases n,
{
    if m < n {
        lemma_leading_grows(s, m, (n - 1) as nat);
    }
}

/// Behind the digits, every place multiplies by ten.
pub proof fn lemma_leading_zeros(s: Seq<char>, k: nat)
    ensures
        leading_value(s, s.len() + k) == leading_value(s, s.len()) * ten_to(k),
    decreases k,
{
    if k > 0 {
        lemma_leading_zeros(s, (k - 1) as nat);
        let v = leading_value(s, s.len());
        let t = ten_to((k - 1) as nat);
        assert(s.len() + (k - 1) as nat == (s.len() + k - 1) as nat);
        assert(leading_value(s, s.len() + k) == (v * t) * 10);
        assert(ten_to(k) == 10 * t);
        assert((v * t) * 10 == v * (10 * t)) by (nonlinear_arith);
    } else {
        assert(leading_value(s, s.len()) * 1 == leading_value(s, s.len()));
    }
}

/// More zeros than there is room for.
proof fn lemma_out_of_room(n: nat)
    requires
        n >= 39,
    ensures
        ten_to(n) > i128::MAX,
    decreases n,
{
    if n > 39 {
        lemma_out_of_room((n - 1) as nat);
    } else {
        assert(ten_to(20) == 100_000_000_000_000_000_000) by {
            reveal_with_fuel(ten_to, 22);
        }
        assert(ten_to(38) == 100_000_000_000_000_000_000_000_000_000_000_000_000) by {
            reveal_with_fuel(ten_to, 20);
        }
    }
}

/// A number that is in range with far more zeros behind it than it has room for is zero.
proof fn lemma_still_zero(s: Seq<char>, m: nat, n: nat)
    requires
        s.len() + 39 <= m <= n,
        leading_value(s, m) <= i128::MAX,
    ensures
        leading_value(s, m) == 0,
        leading_value(s, n) == 0,
{
    let v = leading_value(s, s.len());
    let t = ten_to((m - s.len()) as nat);
    lemma_leading_zeros(s, (m - s.len()) as nat);
    lemma_leading_zeros(s, (n - s.len()) as nat);
    lemma_out_of_room((m - s.len()) as nat);
    assert(s.len() + (m - s.len()) as nat == m);
    assert(s.len() + (n - s.len()) as nat == n);
    assert(v == 0) by (nonlinear_arith)
        requires
            v * t <= i128::MAX,
            t > i128::MAX,
            v >= 0,
    ;
    assert(0 * t == 0) by (nonlinear_arith);
    assert(0 * ten_to((n - s.len()) as nat) == 0) by (nonlinear_arith);
}

/// One more digit behind a number; `None` where it is too large then.
fn one_more(value: u128, d: u8) -> (n: Option<u128>)
    requires
        d <= 9,
        value <= i128::MAX,
    ensures
        match n {
            Some(v) => v == value * 10 + d && v <= i128::MAX,
            None => value * 10 + d > i128::MAX,
        },
{
    let most: u128 = i128::MAX as u128;
    if value > (most - d as u128) / 10 {
        None
    } else {
        Some(value * 10 + d as u128)
    }
}

/// The first `count` digits, filled up with zeros, as a number; `None` where it is too large.
fn leading_number(digits: &[char], count: u128) -> (n: Option<u128>)
    requires
        chars::all_digits(digits@),
    ensures
        match n {
            Some(v) => v == leading_value(digits@, count as nat) && v <= i128::MAX,
            None => leading_value(digits@, count as nat) > i128::MAX,
        },
{
    let mut value: u128 = 0;
    let mut i: usize = 0;
    while i < digits.len() && (i as u128) < count
        invariant
            i <= digits.len(),
            i <= count,
            chars::all_digits(digits@),
            value == leading_value(digits@, i as nat),
            value <= i128::MAX,
        decreases digits.len() - i,
    {
        let next: Option<u128> = one_more(value, chars::decimal_value(digits[i]) as u8);
        i = i + 1;
        match next {
            Some(v) => {
                value = v;
            },
            None => {
                proof {
                    lemma_leading_grows(digits@, i as nat, count as nat);
                }
                return None;
            },
        }
    }
    if i as u128 == count {
        return Some(value);
    }
    let zeros: u128 = count - i as u128;
    proof {
        lemma_leading_zeros(digits@, zeros as nat);
    }
    assert(digits@.len() + zeros as nat == count as nat);
    if value == 0 {
        assert(0 * ten_to(zeros as nat) == 0) by (nonlinear_arith);
        return Some(0);
    }
    if zeros > 38 {
        proof {
            lemma_out_of_room(zeros as nat);
            assert(value * ten_to(zeros as nat) >= ten_to(zeros as nat)) by (nonlinear_arith)
                requires
                    value >= 1,
            ;
        }
        return None;
    }
    let mut k: u128 = 0;
    while k < zeros
        invariant
            k <= zeros <= 38,
            digits@.len() + zeros == count,
            value == leading_value(digits@, digits@.len() + k as nat),
            value <= i128::MAX,
        decreases zeros - k,
    {
        k = k + 1;
        match one_more(value, 0) {
            Some(v) => {
                value = v;
            },
            None => {
                proof {
                    lemma_leading_grows(digits@, digits@.len() + k as nat, count as nat);
                }
                return None;
            },
        }
    }
    Some(value)
}

/// How many billionths digits stand for, with the point behind the first `point` of them and
/// a power of ten.
fn read_billionths(digits: &[char], point: usize, e: Power) -> (n: Option<u128>)
    requires
        chars::all_digits(digits@),
        point <= digits@.len(),
        e.size matches Some(n) ==> n < 0x1_0000_0000_0000_0000_0000,
    ensures
        forall|x: int|
            e.is(x) ==> match n {
                Some(v) => v == #[trigger] billionths(digits@, point + x) && v <= i128::MAX,
                None => billionths(digits@, point + x) > i128::MAX,
            },
{
    let base: u128 = point as u128 + 9;
    assert(digits.len() <= usize::MAX);
    match e.size {
        Some(size) => if !e.below {
            leading_number(digits, base + size)
        } else if size < base {
            leading_number(digits, base - size)
        } else {
            Some(0)
        },
        None => if e.below {
            Some(0)
        } else {
            let n: Option<u128> = leading_number(digits, base + 0x1_0000_0000_0000_0000_0000);
            proof {
                let least = (base + 0x1_0000_0000_0000_0000_0000) as nat;
                assert forall|x: int| e.is(x) implies match n {
                    Some(v) => v == #[trigger] billionths(digits@, point + x),
                    None => billionths(digits@, point + x) > i128::MAX,
                } by {
                    lemma_leading_grows(digits@, least, (point + x + 9) as nat);
                    if n is Some {
                        lemma_still_zero(digits@, least, (point + x + 9) as nat);
                    }
                }
            }
            n
        },
    }
}

/// A count of ticks in units, rounded down to nine places; infinity for a scale of zero, and no
/// number, which counts as zero, for no ticks then.
pub open spec fn of_ticks(ticks: nat, scale: nat) -> Decimal {
    if scale == 0 {
        Decimal {
            nanos: if ticks == 0 {
                0
            } else {
                i128::MAX
            },
        }
    } else {
        fit(((ticks * 1_000_000_000) / scale) as int)
    }
}

} // verus!
