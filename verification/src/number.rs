//! Decimal numbers in text files: white space, digits, and their values.
use vstd::prelude::*;
use vstd::utf8::{encode_utf8, is_ascii_chars, is_ascii_chars_encode_utf8};

verus! {

/// The number of bytes of the white space character that stands in `s` at
/// index `i`, in UTF-8, or 0 if there is none. White space is what has the
/// Unicode property of that name.
pub open spec fn white_len(s: Seq<u8>, i: int) -> int {
    if i < 0 || i >= s.len() {
        0
    } else if 0x09 <= s[i] <= 0x0d || s[i] == 0x20 {
        1
    } else if i + 1 < s.len() && s[i] == 0xc2 && (s[i + 1] == 0x85 || s[i + 1] == 0xa0) {
        2
    } else if i + 2 < s.len() && wide_white(s[i], s[i + 1], s[i + 2]) {
        3
    } else {
        0
    }
}

/// Whether three bytes are a white space character: U+1680, U+2000 to U+200A,
/// U+2028, U+2029, U+202F, U+205F or U+3000.
pub open spec fn wide_white(a: u8, b: u8, c: u8) -> bool {
    ||| a == 0xe1 && b == 0x9a && c == 0x80
    ||| a == 0xe2 && b == 0x80 && (0x80 <= c <= 0x8a || c == 0xa8 || c == 0xa9 || c == 0xaf)
    ||| a == 0xe2 && b == 0x81 && c == 0x9f
    ||| a == 0xe3 && b == 0x80 && c == 0x80
}

/// The first index from `i` on at which no white space stands.
pub open spec fn skip_white(s: Seq<u8>, i: int) -> int
    decreases s.len() - i,
{
    if white_len(s, i) == 0 {
        i
    } else {
        skip_white(s, i + white_len(s, i))
    }
}

/// The first index from `i` on at which white space stands, or the end.
pub open spec fn skip_word(s: Seq<u8>, i: int) -> int
    decreases s.len() - i,
{
    if i < 0 || i >= s.len() || white_len(s, i) != 0 {
        i
    } else {
        skip_word(s, i + 1)
    }
}

/// Whether `b` is a decimal digit.
pub open spec fn is_digit(b: u8) -> bool {
    0x30 <= b <= 0x39
}

/// The value of a row of decimal digits.
pub open spec fn digits_value(s: Seq<u8>) -> nat
    decreases s.len(),
{
    if s.len() == 0 {
        0
    } else {
        digits_value(s.drop_last()) * 10 + (s.last() - 0x30) as nat
    }
}

/// `s` without a leading plus sign.
pub open spec fn without_sign(s: Seq<u8>) -> Seq<u8> {
    if s.len() > 0 && s[0] == 0x2b {
        s.skip(1)
    } else {
        s
    }
}

/// The number that `s` is, if it is one or more digits, after a plus sign or
/// not, and the value is one that a `usize` holds.
pub open spec fn number_in(s: Seq<u8>) -> Option<int> {
    let t = without_sign(s);
    if t.len() > 0 && (forall|i: int| 0 <= i < t.len() ==> is_digit(#[trigger] t[i]))
        && digits_value(t) <= usize::MAX {
        Some(digits_value(t) as int)
    } else {
        None
    }
}

/// The number that `s` is when white space around it is left out.
pub open spec fn lone_number(s: Seq<u8>) -> Option<int> {
    let from = skip_white(s, 0);
    let to = skip_word(s, from);
    if skip_white(s, to) == s.len() {
        number_in(s.subrange(from, to))
    } else {
        None
    }
}

/// The number that the second of the words of `s` is. Words are what white
/// space parts.
pub open spec fn second_number(s: Seq<u8>) -> Option<int> {
    let from = skip_white(s, skip_word(s, skip_white(s, 0)));
    number_in(s.subrange(from, skip_word(s, from)))
}

/// The decimal digits of `n`, without leading zeros.
pub open spec fn decimal(n: nat) -> Seq<u8>
    decreases n,
{
    if n < 10 {
        seq![(0x30 + n) as u8]
    } else {
        decimal(n / 10).push((0x30 + n % 10) as u8)
    }
}

/// The characters whose codes are the bytes of `s`.
pub open spec fn as_chars(s: Seq<u8>) -> Seq<char> {
    Seq::new(s.len(), |i: int| s[i] as char)
}

/// The encoding of characters with codes below 128 is their codes.
pub proof fn lemma_ascii(s: Seq<u8>)
    requires
        forall|i: int| 0 <= i < s.len() ==> #[trigger] s[i] < 0x80,
    ensures
        encode_utf8(as_chars(s)) == s,
{
    let chars = as_chars(s);
    assert(is_ascii_chars(chars));
    is_ascii_chars_encode_utf8(chars);
    assert(encode_utf8(chars) =~= s);
}

/// `decimal` gives digits only.
pub proof fn lemma_decimal_digits(n: nat)
    ensures
        decimal(n).len() > 0,
        forall|i: int| 0 <= i < decimal(n).len() ==> is_digit(#[trigger] decimal(n)[i]),
    decreases n,
{
    if n >= 10 {
        lemma_decimal_digits(n / 10);
    }
}

/// The digits of a number have the number for their value.
pub proof fn law_decimal_value(n: nat)
    ensures
        digits_value(decimal(n)) == n,
    decreases n,
{
    if n < 10 {
        assert(decimal(n).drop_last() =~= Seq::<u8>::empty());
        assert(digits_value(Seq::<u8>::empty()) == 0);
    } else {
        law_decimal_value(n / 10);
        assert(decimal(n).drop_last() =~= decimal(n / 10));
    }
}

/// The digits of a number start with a zero only if it is zero.
pub proof fn law_no_leading_zero(n: nat)
    ensures
        n > 0 ==> decimal(n)[0] != 0x30,
        decimal(n).len() > 1 ==> decimal(n)[0] != 0x30,
    decreases n,
{
    if n >= 10 {
        law_no_leading_zero(n / 10);
        lemma_decimal_digits(n / 10);
        assert(decimal(n)[0] == decimal(n / 10)[0]);
    }
}

/// The value of digits that stand one behind the other: those before count ten
/// times as much for each digit behind them.
pub proof fn law_digits_joined(a: Seq<u8>, b: Seq<u8>)
    ensures
        digits_value(a + b) == digits_value(a) * vstd::arithmetic::power::pow(10, b.len())
            + digits_value(b),
        forall|d: u8|
            0x30 <= d ==> #[trigger] digits_value(seq![d]) == d - 0x30,
        digits_value(Seq::<u8>::empty()) == 0,
    decreases b.len(),
{
    assert forall|d: u8| 0x30 <= d implies #[trigger] digits_value(seq![d]) == d - 0x30 by {
        assert(seq![d].drop_last() =~= Seq::<u8>::empty());
        assert(digits_value(Seq::<u8>::empty()) == 0);
    }
    if b.len() == 0 {
        assert(a + b =~= a);
        vstd::arithmetic::power::lemma_pow0(10);
    } else {
        law_digits_joined(a, b.drop_last());
        assert((a + b).drop_last() =~= a + b.drop_last());
        let n = b.drop_last().len();
        let p = vstd::arithmetic::power::pow(10, n);
        vstd::arithmetic::power::lemma_pow_adds(10, n, 1);
        vstd::arithmetic::power::lemma_pow1(10);
        assert(vstd::arithmetic::power::pow(10, b.len()) == p * 10);
        let v = digits_value(a) as int;
        assert((v * p) * 10 == v * (p * 10)) by (nonlinear_arith);
    }
}

/// A smaller number has no more digits.
pub proof fn law_decimal_len_monotonic(m: nat, n: nat)
    requires
        m <= n,
    ensures
        decimal(m).len() <= decimal(n).len(),
    decreases n,
{
    if n >= 10 && m >= 10 {
        law_decimal_len_monotonic(m / 10, n / 10);
    } else if n >= 10 {
        lemma_decimal_digits(n / 10);
    }
}

/// A 64-bit number has at most twenty digits.
pub proof fn law_decimal_len_64_bits(n: nat)
    requires
        n <= u64::MAX,
    ensures
        decimal(n).len() <= 20,
{
    law_decimal_len_monotonic(n, 0xffff_ffff_ffff_ffff);
    assert(decimal(0xffff_ffff_ffff_ffff).len() == 20) by {
        reveal_with_fuel(decimal, 21);
    }
}

/// Nothing but digits is one word.
proof fn lemma_digits_are_a_word(s: Seq<u8>, i: int)
    requires
        forall|j: int| 0 <= j < s.len() ==> is_digit(#[trigger] s[j]),
        0 <= i <= s.len(),
    ensures
        skip_word(s, i) == s.len(),
    decreases s.len() - i,
{
    if i < s.len() {
        assert(is_digit(s[i]));
        lemma_digits_are_a_word(s, i + 1);
    }
}

/// Digits read as their value.
pub proof fn law_digits_read(s: Seq<u8>)
    requires
        s.len() > 0,
        forall|i: int| 0 <= i < s.len() ==> is_digit(#[trigger] s[i]),
        digits_value(s) <= usize::MAX,
    ensures
        lone_number(s) == Some(digits_value(s) as int),
{
    assert(is_digit(s[0]));
    lemma_digits_are_a_word(s, 0);
    assert(s.subrange(0, s.len() as int) =~= s);
}

/// Whether all bytes from index `i` to `j` are spaces, tabs or line breaks.
pub open spec fn blank(s: Seq<u8>, i: int, j: int) -> bool {
    forall|k: int|
        i <= k < j ==> #[trigger] s[k] == 0x20 || s[k] == 0x09 || s[k] == 0x0a || s[k] == 0x0d
}

/// Whether all bytes from index `i` to `j` are decimal digits.
pub open spec fn numeral(s: Seq<u8>, i: int, j: int) -> bool {
    forall|k: int| i <= k < j ==> 0x30 <= #[trigger] s[k] <= 0x39
}

/// White space is passed over up to what is none.
pub proof fn law_blank_skipped(s: Seq<u8>, i: int, j: int)
    requires
        0 <= i <= j <= s.len(),
        blank(s, i, j),
        j == s.len() || 0x30 <= s[j] <= 0x39,
    ensures
        skip_white(s, i) == j,
    decreases j - i,
{
    if i < j {
        assert(white_len(s, i) == 1);
        law_blank_skipped(s, i + 1, j);
    } else {
        assert(white_len(s, i) == 0);
    }
}

/// Digits are passed over up to white space.
pub proof fn law_numeral_skipped(s: Seq<u8>, i: int, j: int)
    requires
        0 <= i <= j <= s.len(),
        numeral(s, i, j),
        j == s.len() || blank(s, j, j + 1),
    ensures
        skip_word(s, i) == j,
    decreases j - i,
{
    if i < j {
        assert(white_len(s, i) == 0);
        law_numeral_skipped(s, i + 1, j);
    } else if j < s.len() {
        assert(s[j] == 0x20 || s[j] == 0x09 || s[j] == 0x0a || s[j] == 0x0d);
        assert(white_len(s, j) == 1);
    }
}

/// Digits read as their value, with a plus sign before them or not.
proof fn lemma_numeral_value(s: Seq<u8>, i: int, j: int)
    requires
        0 <= i < j <= s.len(),
        numeral(s, i, j),
        digits_value(s.subrange(i, j)) <= usize::MAX,
    ensures
        number_in(s.subrange(i, j)) == Some(digits_value(s.subrange(i, j)) as int),
{
    let t = s.subrange(i, j);
    assert forall|k: int| 0 <= k < t.len() implies is_digit(#[trigger] t[k]) by {
        assert(t[k] == s[i + k]);
    }
    assert(t[0] == s[i]);
}

/// A number with white space around it is read as its value.
pub proof fn law_lone_number(s: Seq<u8>, i: int, j: int)
    requires
        0 <= i < j <= s.len(),
        blank(s, 0, i),
        numeral(s, i, j),
        blank(s, j, s.len() as int),
        digits_value(s.subrange(i, j)) <= usize::MAX,
    ensures
        lone_number(s) == Some(digits_value(s.subrange(i, j)) as int),
{
    assert(0x30 <= s[i] <= 0x39);
    law_blank_skipped(s, 0, i);
    law_numeral_skipped(s, i, j);
    law_blank_skipped(s, j, s.len() as int);
    lemma_numeral_value(s, i, j);
}

/// The second of two numbers is read as its value.
pub proof fn law_second_number(s: Seq<u8>, a: int, b: int, c: int, d: int)
    requires
        0 <= a < b < c < d <= s.len(),
        blank(s, 0, a),
        numeral(s, a, b),
        blank(s, b, c),
        numeral(s, c, d),
        d == s.len() || blank(s, d, d + 1),
        digits_value(s.subrange(c, d)) <= usize::MAX,
    ensures
        second_number(s) == Some(digits_value(s.subrange(c, d)) as int),
{
    assert(0x30 <= s[a] <= 0x39 && 0x30 <= s[c] <= 0x39);
    law_blank_skipped(s, 0, a);
    law_numeral_skipped(s, a, b);
    law_blank_skipped(s, b, c);
    law_numeral_skipped(s, c, d);
    lemma_numeral_value(s, c, d);
}

/// Leading zeros do not change the value of digits.
pub proof fn law_leading_zeros(z: nat, s: Seq<u8>)
    ensures
        digits_value(Seq::new(z, |i: int| 0x30u8) + s) == digits_value(s),
    decreases z + s.len(),
{
    let all = Seq::new(z, |i: int| 0x30u8) + s;
    if s.len() > 0 {
        law_leading_zeros(z, s.drop_last());
        assert(all.drop_last() =~= Seq::new(z, |i: int| 0x30u8) + s.drop_last());
    } else if z > 0 {
        law_leading_zeros((z - 1) as nat, s);
        assert(all.drop_last() =~= Seq::new((z - 1) as nat, |i: int| 0x30u8) + s);
    }
}

/// The number of bytes of the white space character at index `i`, or 0.
fn white_len_at(s: &[u8], i: usize) -> (r: usize)
    ensures
        r == white_len(s@, i as int),
{
    if i >= s.len() {
        return 0;
    }
    let left: usize = s.len() - i;
    let a = s[i];
    if (0x09 <= a && a <= 0x0d) || a == 0x20 {
        return 1;
    }
    if left > 1 && a == 0xc2 && (s[i + 1] == 0x85 || s[i + 1] == 0xa0) {
        return 2;
    }
    if left > 2 {
        let b = s[i + 1];
        let c = s[i + 2];
        if (a == 0xe1 && b == 0x9a && c == 0x80) || (a == 0xe2 && b == 0x80 && ((0x80 <= c && c
            <= 0x8a) || c == 0xa8 || c == 0xa9 || c == 0xaf)) || (a == 0xe2 && b == 0x81 && c
            == 0x9f) || (a == 0xe3 && b == 0x80 && c == 0x80) {
            return 3;
        }
    }
    0
}

/// The first index from `i` on at which no white space stands.
pub fn after_white(s: &[u8], i: usize) -> (r: usize)
    requires
        i <= s@.len(),
    ensures
        r == skip_white(s@, i as int),
        i <= r <= s@.len(),
{
    let len = s.len();
    let mut p: usize = i;
    let mut step: usize = white_len_at(s, p);
    while step > 0
        invariant
            i <= p <= len == s@.len(),
            step == white_len(s@, p as int),
            skip_white(s@, i as int) == skip_white(s@, p as int),
        decreases s@.len() - p,
    {
        p = p + step;
        step = white_len_at(s, p);
    }
    p
}

/// The first index from `i` on at which white space stands, or the end.
fn after_word(s: &[u8], i: usize) -> (r: usize)
    requires
        i <= s@.len(),
    ensures
        r == skip_word(s@, i as int),
        i <= r <= s@.len(),
{
    let mut p: usize = i;
    while p < s.len() && white_len_at(s, p) == 0
        invariant
            i <= p <= s@.len(),
            skip_word(s@, i as int) == skip_word(s@, p as int),
        decreases s@.len() - p,
    {
        p = p + 1;
    }
    p
}

/// A part of a row of digits has no greater value than the whole row.
proof fn lemma_value_of_prefix(s: Seq<u8>, i: int)
    requires
        0 <= i <= s.len(),
    ensures
        digits_value(s.take(i)) <= digits_value(s),
    decreases s.len() - i,
{
    if i < s.len() {
        lemma_value_of_prefix(s, i + 1);
        assert(s.take(i + 1).drop_last() =~= s.take(i));
    } else {
        assert(s.take(i) =~= s);
    }
}

/// The number that `s` is, if it is one that a `usize` holds.
pub fn parse_number(s: &[u8]) -> (r: Option<usize>)
    ensures
        r is Some <==> number_in(s@) is Some,
        r matches Some(v) ==> number_in(s@) == Some(v as int),
{
    let first: usize = if s.len() > 0 && s[0] == 0x2b {
        1
    } else {
        0
    };
    let ghost t = without_sign(s@);
    assert(t =~= s@.skip(first as int));
    if s.len() == first {
        return None;
    }
    let mut value: usize = 0;
    let mut i: usize = first;
    assert(t.take(0) =~= Seq::<u8>::empty());
    while i < s.len()
        invariant
            first <= i <= s@.len(),
            t == s@.skip(first as int),
            t == without_sign(s@),
            forall|j: int| 0 <= j < i - first ==> is_digit(#[trigger] t[j]),
            value == digits_value(t.take(i - first)),
        decreases s@.len() - i,
    {
        let b = s[i];
        assert(b == t[i - first]);
        if b < 0x30 || b > 0x39 {
            return None;
        }
        proof {
            assert(t.take(i + 1 - first).drop_last() =~= t.take(i - first));
            lemma_value_of_prefix(t, i + 1 - first);
        }
        let digit: usize = (b - 0x30) as usize;
        if value > usize::MAX / 10 || digit > usize::MAX - value * 10 {
            return None;
        }
        value = value * 10 + digit;
        i = i + 1;
    }
    assert(t.take(i - first) =~= t);
    Some(value)
}

/// The number that `s` is when white space around it is left out.
pub fn parse_lone_number(s: &[u8]) -> (r: Option<usize>)
    ensures
        r is Some <==> lone_number(s@) is Some,
        r matches Some(v) ==> lone_number(s@) == Some(v as int),
{
    let from = after_white(s, 0);
    let to = after_word(s, from);
    if after_white(s, to) == s.len() {
        parse_number(&s[from..to])
    } else {
        None
    }
}

/// The number that the second of the words of `s` is.
pub fn parse_second_number(s: &[u8]) -> (r: Option<usize>)
    ensures
        r is Some <==> second_number(s@) is Some,
        r matches Some(v) ==> second_number(s@) == Some(v as int),
{
    let from = after_white(s, after_word(s, after_white(s, 0)));
    let to = after_word(s, from);
    parse_number(&s[from..to])
}

/// A number has no more digits than its tenth part and one.
proof fn lemma_decimal_short(n: nat)
    ensures
        decimal(n).len() <= n / 10 + 1,
    decreases n,
{
    if n >= 10 {
        lemma_decimal_short(n / 10);
    }
}

/// The decimal digits of `n`, as text.
pub fn decimal_string(n: usize) -> (r: String)
    ensures
        r@ == as_chars(decimal(n as nat)),
        encode_utf8(r@) == decimal(n as nat),
    decreases n,
{
    let digit: u8 = (n % 10) as u8;
    let mut r = if n < 10 {
        String::new()
    } else {
        decimal_string(n / 10)
    };
    proof {
        lemma_decimal_digits(n as nat);
        lemma_decimal_short(n as nat);
        lemma_ascii(decimal(n as nat));
        assert(r@.push((0x30 + digit) as char) =~= as_chars(decimal(n as nat)));
    }
    r.push((0x30 + digit) as char);
    r
}

} // verus!
