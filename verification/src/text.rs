//! Text that appears in headers, messages and directory names: decimal
//! numbers, prefixes and comparisons.

use vstd::prelude::*;
use vstd::string::*;
use vstd::utf8::*;

verus! {

/// The decimal digit for `d`, which is below ten.
pub open spec fn digit_char(d: nat) -> char {
    (48 + d) as char
}

/// Whether `c` is one of the ten ASCII decimal digits.
pub open spec fn is_digit(c: char) -> bool {
    '0' <= c <= '9'
}

/// `n` in decimal, without leading zeros.
pub open spec fn decimal(n: nat) -> Seq<char>
    decreases n,
{
    if n < 10 {
        seq![digit_char(n)]
    } else {
        decimal(n / 10).push(digit_char(n % 10))
    }
}

/// `i` in decimal, with a leading minus sign when it is negative.
pub open spec fn signed_decimal(i: int) -> Seq<char> {
    if i < 0 {
        seq!['-'] + decimal((-i) as nat)
    } else {
        decimal(i as nat)
    }
}

/// The number that a run of decimal digits stands for.
pub open spec fn decimal_value(digits: Seq<char>) -> int
    decreases digits.len(),
{
    if digits.len() == 0 {
        0
    } else {
        decimal_value(digits.drop_last()) * 10 + (digits.last() as int - 48)
    }
}

/// Whether `s` is one or more decimal digits.
pub open spec fn is_number(s: Seq<char>) -> bool {
    &&& s.len() > 0
    &&& forall|i: int| 0 <= i < s.len() ==> is_digit(#[trigger] s[i])
}

/// The number written in `s`: digits behind an optional sign, within the
/// range of `i64`.
pub open spec fn parsed_i64(s: Seq<char>) -> Option<int> {
    let signed = s.len() > 0 && (s[0] == '-' || s[0] == '+');
    let digits = if signed {
        s.skip(1)
    } else {
        s
    };
    let value = if signed && s[0] == '-' {
        -decimal_value(digits)
    } else {
        decimal_value(digits)
    };
    if is_number(digits) && i64::MIN <= value <= i64::MAX {
        Some(value)
    } else {
        None
    }
}

/// Appends the digit for `d` to `out`.
fn push_digit(out: &mut String, d: u64)
    requires
        d < 10,
    ensures
        final(out)@ == old(out)@.push(digit_char(d as nat)),
{
    proof {
        reveal_strlit("0");
        reveal_strlit("1");
        reveal_strlit("2");
        reveal_strlit("3");
        reveal_strlit("4");
        reveal_strlit("5");
        reveal_strlit("6");
        reveal_strlit("7");
        reveal_strlit("8");
        reveal_strlit("9");
    }
    let digit: &str = match d {
        0 => "0",
        1 => "1",
        2 => "2",
        3 => "3",
        4 => "4",
        5 => "5",
        6 => "6",
        7 => "7",
        8 => "8",
        _ => "9",
    };
    assert(digit@ =~= seq![digit_char(d as nat)]);
    out.append(digit);
    assert(out@ =~= old(out)@.push(digit_char(d as nat)));
}

/// Appends `n` in decimal to `out`.
fn push_decimal(out: &mut String, n: u64)
    ensures
        final(out)@ == old(out)@ + decimal(n as nat),
    decreases n,
{
    if n >= 10 {
        push_decimal(out, n / 10);
    }
    push_digit(out, n % 10);
    assert(out@ =~= old(out)@ + decimal(n as nat));
}

/// Writes `value` in decimal.
pub fn i64_text(value: i64) -> (text: String)
    ensures
        text@ == signed_decimal(value as int),
{
    let mut text: String = String::new();
    if value < 0 {
        proof {
            reveal_strlit("-");
        }
        text.append("-");
        let magnitude: u64 = (-(value as i128)) as u64;
        push_decimal(&mut text, magnitude);
        assert(text@ =~= seq!['-'] + decimal(magnitude as nat));
    } else {
        push_decimal(&mut text, value as u64);
        assert(text@ =~= decimal(value as nat));
    }
    text
}

/// The characters of `s`, in order.
pub fn chars_of(s: &str) -> (chars: Vec<char>)
    ensures
        chars@ == s@,
{
    let mut chars: Vec<char> = Vec::new();
    for c in iter: s.chars()
        invariant
            iter.seq() == s@,
            chars@ == s@.take(iter.index()),
    {
        chars.push(c);
        assert(s@.take(iter.index() + 1) =~= s@.take(iter.index()).push(c));
    }
    assert(s@.take(s@.len() as int) =~= s@);
    chars
}

/// A longer run of digits stands for a number at least as large.
proof fn lemma_decimal_value_grows(s: Seq<char>, n: int)
    requires
        0 <= n <= s.len(),
        forall|i: int| 0 <= i < s.len() ==> is_digit(#[trigger] s[i]),
    ensures
        0 <= decimal_value(s.take(n)) <= decimal_value(s),
    decreases s.len(),
{
    if n == s.len() {
        assert(s.take(n) =~= s);
        if s.len() > 0 {
            lemma_decimal_value_grows(s.drop_last(), s.len() - 1);
            assert(s.drop_last().take(s.len() - 1) =~= s.drop_last());
        }
    } else {
        lemma_decimal_value_grows(s.drop_last(), n);
        assert(s.drop_last().take(n) =~= s.take(n));
    }
}

/// Reads a decimal number with an optional sign, as the timestamp header
/// holds it.
pub fn parse_i64(text: &str) -> (value: Option<i64>)
    ensures
        match value {
            Some(v) => parsed_i64(text@) == Some(v as int),
            None => parsed_i64(text@) is None,
        },
{
    let chars: Vec<char> = chars_of(text);
    let signed: bool = chars.len() > 0 && (chars[0] == '-' || chars[0] == '+');
    let negative: bool = chars.len() > 0 && chars[0] == '-';
    let start: usize = if signed {
        1
    } else {
        0
    };
    let ghost digits = if signed {
        text@.skip(1)
    } else {
        text@
    };
    if chars.len() == start {
        return None;
    }
    let mut magnitude: u64 = 0;
    let mut i: usize = start;
    while i < chars.len()
        invariant
            chars@ == text@,
            start <= i <= chars.len(),
            start <= 1,
            signed == (text@.len() > 0 && (text@[0] == '-' || text@[0] == '+')),
            start == (if signed { 1int } else { 0int }),
            digits == (if signed { text@.skip(1) } else { text@ }),
            forall|j: int| 0 <= j < i - start ==> is_digit(#[trigger] digits[j]),
            magnitude == decimal_value(digits.take(i - start)),
            magnitude <= 0x8000_0000_0000_0000,
        decreases chars.len() - i,
    {
        let c: char = chars[i];
        assert(digits[i - start] == c);
        if c < '0' || c > '9' {
            return None;
        }
        let ghost before = digits.take(i - start);
        proof {
            assert(digits.take(i - start + 1).drop_last() =~= before);
            assert(digits.take(i - start + 1).last() == c);
        }
        let next: u128 = magnitude as u128 * 10 + (c as u32 - 48) as u128;
        assert(next == decimal_value(digits.take(i - start + 1)));
        if next > 0x8000_0000_0000_0000 {
            proof {
                if is_number(digits) {
                    lemma_decimal_value_grows(digits, i - start + 1);
                }
            }
            return None;
        }
        magnitude = next as u64;
        i = i + 1;
    }
    assert(digits.take(digits.len() as int) =~= digits);
    if negative {
        Some((-(magnitude as i128)) as i64)
    } else if magnitude <= 0x7fff_ffff_ffff_ffff {
        Some(magnitude as i64)
    } else {
        None
    }
}

/// `decimal` writes digits only, and reads back as the number written.
pub proof fn lemma_decimal_reads_back(n: nat)
    ensures
        is_number(decimal(n)),
        decimal_value(decimal(n)) == n,
    decreases n,
{
    if n < 10 {
        reveal_with_fuel(decimal_value, 2);
        assert(decimal(n).drop_last() =~= Seq::<char>::empty());
    } else {
        lemma_decimal_reads_back(n / 10);
        assert(decimal(n).drop_last() =~= decimal(n / 10));
    }
}

/// Reading a timestamp gives back the number that was written.
pub proof fn lemma_i64_text_reads_back(value: i64)
    ensures
        parsed_i64(signed_decimal(value as int)) == Some(value as int),
{
    let s = signed_decimal(value as int);
    if value < 0 {
        lemma_decimal_reads_back((-value) as nat);
        assert(s.skip(1) =~= decimal((-value) as nat));
    } else {
        lemma_decimal_reads_back(value as nat);
        assert(is_digit(s[0]));
    }
}

/// A run of digits is made of zeros and of the number that it stands for,
/// written in decimal.
proof fn lemma_digits_are_decimal(digits: Seq<char>) -> (zeros: Seq<char>)
    requires
        is_number(digits),
    ensures
        decimal_value(digits) >= 0,
        digits == zeros + decimal(decimal_value(digits) as nat),
        forall|i: int| 0 <= i < zeros.len() ==> zeros[i] == '0',
    decreases digits.len(),
{
    let last = digits.last();
    let before = digits.drop_last();
    assert(is_digit(digits[digits.len() - 1]));
    let d = last as int - 48;
    assert(digit_char(d as nat) == last);
    if before.len() == 0 {
        reveal_with_fuel(decimal_value, 2);
        assert(decimal_value(digits) == d);
        assert(digits =~= Seq::<char>::empty() + decimal(d as nat));
        Seq::empty()
    } else {
        assert forall|i: int| 0 <= i < before.len() implies is_digit(#[trigger] before[i]) by {
            assert(before[i] == digits[i]);
        }
        let zeros = lemma_digits_are_decimal(before);
        let value = decimal_value(before);
        assert(decimal_value(digits) == value * 10 + d);
        if value == 0 {
            assert(before =~= zeros.push('0')) by {
                assert(decimal(0) =~= seq!['0']);
            }
            assert(digits =~= zeros.push('0') + decimal(d as nat));
            zeros.push('0')
        } else {
            let n = (value * 10 + d) as nat;
            assert(n / 10 == value && n % 10 == d);
            assert(decimal(n) == decimal(n / 10).push(digit_char(n % 10)));
            assert(n / 10 == value as nat && n % 10 == d as nat);
            assert(digits =~= before.push(last));
            assert(digits =~= zeros + decimal(n));
            zeros
        }
    }
}

/// More zeros in front do not change a number.
proof fn lemma_leading_zeros(zeros: Seq<char>, digits: Seq<char>)
    requires
        forall|i: int| 0 <= i < zeros.len() ==> zeros[i] == '0',
    ensures
        decimal_value(zeros + digits) == decimal_value(digits),
    decreases digits.len(), zeros.len(),
{
    if digits.len() > 0 {
        lemma_leading_zeros(zeros, digits.drop_last());
        assert((zeros + digits).drop_last() =~= zeros + digits.drop_last());
    } else {
        assert(zeros + digits =~= zeros);
        if zeros.len() > 0 {
            lemma_leading_zeros(zeros.drop_last(), digits);
            assert(zeros.drop_last() + digits =~= zeros.drop_last());
        }
    }
}

/// What a number reads as is written in it: exactly the texts that are made of
/// an optional sign, any number of zeros and the decimal digits of a number
/// within the range of `i64` read as that number, with the sign.
pub proof fn lemma_number_is_what_is_written(s: Seq<char>, value: i64) -> (parts: (
    Seq<char>,
    Seq<char>,
))
    ensures
        parsed_i64(s) == Some(value as int) ==> {
            &&& s == parts.0 + parts.1 + decimal(
                if value < 0 {
                    (-value) as nat
                } else {
                    value as nat
                },
            )
            &&& forall|i: int| 0 <= i < parts.1.len() ==> parts.1[i] == '0'
            &&& parts.0 == seq!['-'] || value >= 0
            &&& parts.0 == seq!['-'] || parts.0 == seq!['+'] || parts.0 == Seq::<char>::empty()
            &&& parts.0 == seq!['-'] ==> value <= 0
        },
{
    let signed = s.len() > 0 && (s[0] == '-' || s[0] == '+');
    let digits = if signed {
        s.skip(1)
    } else {
        s
    };
    let sign = if signed {
        seq![s[0]]
    } else {
        Seq::empty()
    };
    assert(s =~= sign + digits);
    if parsed_i64(s) == Some(value as int) {
        let zeros = lemma_digits_are_decimal(digits);
        let n = decimal_value(digits) as nat;
        assert(s =~= sign + zeros + decimal(n));
        (sign, zeros)
    } else {
        (sign, Seq::empty())
    }
}

/// Every text that is made of an optional sign, any number of zeros and the
/// decimal digits of a number reads as that number, with the sign, where it is
/// within the range of `i64`, and does not read as a number otherwise.
pub proof fn lemma_written_number_is_read(sign: Seq<char>, zeros: Seq<char>, n: nat)
    requires
        sign == seq!['-'] || sign == seq!['+'] || sign == Seq::<char>::empty(),
        forall|i: int| 0 <= i < zeros.len() ==> zeros[i] == '0',
    ensures
        ({
            let value = if sign == seq!['-'] {
                -(n as int)
            } else {
                n as int
            };
            parsed_i64(sign + zeros + decimal(n)) == (if i64::MIN <= value <= i64::MAX {
                Some(value)
            } else {
                None
            })
        }),
{
    let digits = zeros + decimal(n);
    let s = sign + zeros + decimal(n);
    lemma_decimal_reads_back(n);
    lemma_leading_zeros(zeros, decimal(n));
    assert forall|i: int| 0 <= i < digits.len() implies is_digit(#[trigger] digits[i]) by {
        if i < zeros.len() {
            assert(digits[i] == zeros[i]);
        } else {
            assert(digits[i] == decimal(n)[i - zeros.len()]);
        }
    }
    assert(s =~= sign + digits);
    if sign.len() > 0 {
        assert(s[0] == sign[0]);
        assert(s.skip(1) =~= digits);
    } else {
        assert(s =~= digits);
        assert(is_digit(digits[0]));
    }
    assert(seq!['-'][0] != seq!['+'][0]);
}

/// A number in decimal has no zero in front but for zero itself. One below ten is
/// its own digit, and a larger one is its tenth part with one more digit.
pub proof fn lemma_decimal_shape(n: nat)
    ensures
        decimal(n).len() > 0,
        n > 0 ==> decimal(n)[0] != '0',
        n == 0 ==> decimal(n) == seq!['0'],
        n < 10 ==> decimal(n).len() == 1 && decimal(n)[0] as int == '0' as int + n,
        n >= 10 ==> decimal(n) == decimal(n / 10) + decimal(n % 10),
    decreases n,
{
    if n >= 10 {
        lemma_decimal_shape(n / 10);
        assert(decimal(n) =~= decimal(n / 10) + decimal(n % 10));
    } else {
        assert(decimal(n) =~= seq![digit_char(n)]);
    }
}

/// Different strings have different UTF-8 encodings.
pub proof fn lemma_encode_utf8_injective(a: Seq<char>, b: Seq<char>)
    requires
        encode_utf8(a) == encode_utf8(b),
    ensures
        a == b,
{
    encode_utf8_decode_utf8(a);
    encode_utf8_decode_utf8(b);
}

/// The UTF-8 encoding of a concatenation is the concatenation of the
/// encodings.
pub proof fn lemma_encode_utf8_concat(a: Seq<char>, b: Seq<char>)
    ensures
        encode_utf8(a + b) == encode_utf8(a) + encode_utf8(b),
    decreases a.len(),
{
    if a.len() == 0 {
        assert(a + b =~= b);
        assert(encode_utf8(a) + encode_utf8(b) =~= encode_utf8(b));
    } else {
        lemma_encode_utf8_concat(a.drop_first(), b);
        assert((a + b).drop_first() =~= a.drop_first() + b);
        assert(encode_utf8(a + b) =~= encode_utf8(a) + encode_utf8(b));
    }
}

/// A text without a slash has no slash among its bytes.
pub proof fn lemma_encode_utf8_without_slash(text: Seq<char>)
    requires
        forall|i: int| 0 <= i < text.len() ==> text[i] != '/',
    ensures
        forall|i: int| 0 <= i < encode_utf8(text).len() ==> encode_utf8(text)[i] != 47,
    decreases text.len(),
{
    if text.len() > 0 {
        let c = text[0] as u32;
        char_is_scalar(text[0]);
        char_u32_cast(text[0], c);
        assert(c != 47);
        assert(c <= 0x7f && c != 47 ==> leading_byte_width_1(c) != 47) by (bit_vector);
        assert(leading_byte_width_2(c) >= 0x80) by (bit_vector);
        assert(leading_byte_width_3(c) >= 0x80) by (bit_vector);
        assert(leading_byte_width_4(c) >= 0x80) by (bit_vector);
        assert(last_continuation_byte(c) >= 0x80) by (bit_vector);
        assert(second_last_continuation_byte(c) >= 0x80) by (bit_vector);
        assert(third_last_continuation_byte(c) >= 0x80) by (bit_vector);
        let first = encode_scalar(c);
        assert forall|i: int| 0 <= i < first.len() implies first[i] != 47 by {}
        lemma_encode_utf8_without_slash(text.drop_first());
        let rest = encode_utf8(text.drop_first());
        assert forall|i: int| 0 <= i < encode_utf8(text).len() implies encode_utf8(text)[i]
            != 47 by {
            if i < first.len() {
                assert(encode_utf8(text)[i] == first[i]);
            } else {
                assert(encode_utf8(text)[i] == rest[i - first.len()]);
            }
        }
    }
}

/// Whether two byte strings are equal.
pub fn bytes_equal(a: &[u8], b: &[u8]) -> (equal: bool)
    ensures
        equal == (a@ == b@),
{
    if a.len() != b.len() {
        return false;
    }
    let mut i: usize = 0;
    while i < a.len()
        invariant
            i <= a.len(),
            a.len() == b.len(),
            forall|j: int| 0 <= j < i ==> a@[j] == b@[j],
        decreases a.len() - i,
    {
        if a[i] != b[i] {
            return false;
        }
        i = i + 1;
    }
    assert(a@ =~= b@);
    true
}

/// Whether two texts are equal.
pub fn text_equal(a: &str, b: &str) -> (equal: bool)
    ensures
        equal == (a@ == b@),
{
    let equal: bool = bytes_equal(a.as_bytes(), b.as_bytes());
    proof {
        if equal {
            lemma_encode_utf8_injective(a@, b@);
        }
    }
    equal
}

/// Whether `names` holds `name`.
pub open spec fn has_name(names: Seq<String>, name: Seq<char>) -> bool {
    exists|i: int| 0 <= i < names.len() && (#[trigger] names[i])@ == name
}

/// Looks `name` up in `names`.
pub fn contains_name(names: &Vec<String>, name: &str) -> (found: bool)
    ensures
        found == has_name(names@, name@),
{
    let mut i: usize = 0;
    while i < names.len()
        invariant
            i <= names.len(),
            forall|j: int| 0 <= j < i ==> (#[trigger] names@[j])@ != name@,
        decreases names.len() - i,
    {
        if text_equal(names[i].as_str(), name) {
            return true;
        }
        i = i + 1;
    }
    false
}

/// What is left of `s` behind `prefix`, if `s` starts with it.
pub open spec fn without_prefix(s: Seq<char>, prefix: Seq<char>) -> Option<Seq<char>> {
    if prefix.len() <= s.len() && s.take(prefix.len() as int) == prefix {
        Some(s.skip(prefix.len() as int))
    } else {
        None
    }
}

/// What is left behind a prefix is what follows it: together they are the whole
/// text, and nothing is left exactly where the text does not start so.
pub proof fn lemma_prefix_is_split_off(s: Seq<char>, prefix: Seq<char>)
    ensures
        without_prefix(s, prefix) is Some ==> s == prefix + without_prefix(s, prefix)->0,
        without_prefix(s, prefix) is None ==> forall|rest: Seq<char>|
            s != #[trigger] (prefix + rest),
{
    let n = prefix.len() as int;
    if without_prefix(s, prefix) is Some {
        assert(s =~= s.take(n) + s.skip(n));
    } else {
        assert forall|rest: Seq<char>| s != #[trigger] (prefix + rest) by {
            assert((prefix + rest).take(n) =~= prefix);
        }
    }
}

/// Strips `prefix` off `text`.
pub fn strip_text_prefix<'a>(text: &'a str, prefix: &str) -> (rest: Option<&'a str>)
    ensures
        match rest {
            Some(r) => without_prefix(text@, prefix@) == Some(r@),
            None => without_prefix(text@, prefix@) is None,
        },
{
    let len: usize = text.unicode_len();
    let prefix_len: usize = prefix.unicode_len();
    if prefix_len > len {
        return None;
    }
    if text_equal(text.substring_char(0, prefix_len), prefix) {
        let rest: &str = text.substring_char(prefix_len, len);
        assert(rest@ =~= text@.skip(prefix@.len() as int));
        Some(rest)
    } else {
        None
    }
}

/// The two sides of the first `separator` in `s`, if it occurs.
pub open spec fn split_at_first(s: Seq<char>, separator: char) -> Option<(Seq<char>, Seq<char>)> {
    if s.contains(separator) {
        let i = s.index_of_first(separator)->0;
        Some((s.take(i), s.skip(i + 1)))
    } else {
        None
    }
}

/// The two sides of a separator make up the text with it in between, and there
/// is none in the first. A text without one is not split.
pub proof fn lemma_split_at_first(s: Seq<char>, separator: char)
    ensures
        match split_at_first(s, separator) {
            Some((head, tail)) => s == head + seq![separator] + tail && forall|i: int|
                0 <= i < head.len() ==> head[i] != separator,
            None => forall|i: int| 0 <= i < s.len() ==> s[i] != separator,
        },
{
    if s.contains(separator) {
        s.index_of_first_ensures(separator);
        let i = s.index_of_first(separator)->0;
        assert(s =~= s.take(i) + seq![separator] + s.skip(i + 1));
    } else {
        assert forall|i: int| 0 <= i < s.len() implies s[i] != separator by {
            if s[i] == separator {
                assert(s.contains(separator));
            }
        }
    }
}

/// Splits `text` at its first `separator`.
pub fn split_text_once<'a>(text: &'a str, separator: char) -> (sides: Option<(&'a str, &'a str)>)
    ensures
        match sides {
            Some(pair) => split_at_first(text@, separator) == Some((pair.0@, pair.1@)),
            None => split_at_first(text@, separator) is None,
        },
{
    let chars: Vec<char> = chars_of(text);
    let mut i: usize = 0;
    while i < chars.len()
        invariant
            i <= chars.len(),
            chars@ == text@,
            forall|j: int| 0 <= j < i ==> text@[j] != separator,
        decreases chars.len() - i,
    {
        if chars[i] == separator {
            let head: &str = text.substring_char(0, i);
            let tail: &str = text.substring_char(i + 1, chars.len());
            proof {
                assert(text@.contains(separator));
                text@.index_of_first_ensures(separator);
                let first = text@.index_of_first(separator)->0;
                assert(first == i);
                assert(head@ =~= text@.take(first));
                assert(tail@ =~= text@.skip(first + 1));
            }
            return Some((head, tail));
        }
        i = i + 1;
    }
    None
}

} // verus!
