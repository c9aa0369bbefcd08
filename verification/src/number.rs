//! Numbers in the headers of an archive: octal and decimal text, and binary.

use vstd::arithmetic::power::pow;
use vstd::prelude::*;
use vstd::slice::*;
use vstd::utf8::*;

use crate::external::utf8_text;
use crate::text::{chars_of, decimal_value};

verus! {

/// Whether `c` is a digit of numbers in this radix, which is ten at most.
pub open spec fn is_radix_digit(c: char, radix: int) -> bool {
    48 <= c as int && (c as int) < 48 + radix
}

/// The number that a run of digits stands for.
pub open spec fn radix_value(digits: Seq<char>, radix: int) -> int
    decreases digits.len(),
{
    if digits.len() == 0 {
        0
    } else {
        radix * radix_value(digits.drop_last(), radix) + (digits.last() as int - 48)
    }
}

/// Whether `digits` are digits of this radix, one at least.
pub open spec fn are_radix_digits(digits: Seq<char>, radix: int) -> bool {
    &&& digits.len() > 0
    &&& forall|i: int| 0 <= i < digits.len() ==> is_radix_digit(#[trigger] digits[i], radix)
}

/// The number written in `s`: digits behind an optional plus sign, within the
/// range of `u64`.
pub open spec fn parsed_number(s: Seq<char>, radix: int) -> Option<int> {
    let digits = if s.len() > 0 && s[0] == '+' {
        s.skip(1)
    } else {
        s
    };
    if are_radix_digits(digits, radix) && radix_value(digits, radix) <= u64::MAX {
        Some(radix_value(digits, radix))
    } else {
        None
    }
}

/// Whether `c` is white space, as Unicode has it.
pub open spec fn is_white_space(c: char) -> bool {
    ||| '\u{9}' <= c <= '\u{d}'
    ||| c == '\u{20}'
    ||| c == '\u{85}'
    ||| c == '\u{a0}'
    ||| c == '\u{1680}'
    ||| '\u{2000}' <= c <= '\u{200a}'
    ||| c == '\u{2028}'
    ||| c == '\u{2029}'
    ||| c == '\u{202f}'
    ||| c == '\u{205f}'
    ||| c == '\u{3000}'
}

/// `s` without the white space that it starts with.
pub open spec fn trimmed_front(s: Seq<char>) -> Seq<char>
    decreases s.len(),
{
    if s.len() > 0 && is_white_space(s[0]) {
        trimmed_front(s.skip(1))
    } else {
        s
    }
}

/// `s` without the white space that it ends with.
pub open spec fn trimmed_back(s: Seq<char>) -> Seq<char>
    decreases s.len(),
{
    if s.len() > 0 && is_white_space(s.last()) {
        trimmed_back(s.drop_last())
    } else {
        s
    }
}

/// The text in `bytes`, if they are valid UTF-8.
pub open spec fn text_in(bytes: Seq<u8>) -> Option<Seq<char>> {
    if valid_utf8(bytes) {
        Some(decode_utf8(bytes))
    } else {
        None
    }
}

/// Where `wanted` first is in `bytes`, or their number.
pub open spec fn first_at(bytes: Seq<u8>, wanted: u8) -> int
    decreases bytes.len(),
{
    if bytes.len() == 0 || bytes[0] == wanted {
        0
    } else {
        1 + first_at(bytes.skip(1), wanted)
    }
}

/// The octal number in a field that a zero byte may end, with white space
/// around it.
pub open spec fn octal_field(field: Seq<u8>) -> Option<int> {
    match text_in(field.take(first_at(field, 0))) {
        Some(text) => parsed_number(trimmed_back(trimmed_front(text)), 8),
        None => None,
    }
}

/// The decimal number in `bytes`.
pub open spec fn decimal_bytes(bytes: Seq<u8>) -> Option<int> {
    match text_in(bytes) {
        Some(text) => parsed_number(text, 10),
        None => None,
    }
}

/// The number whose eight bytes these are, the most significant first.
pub open spec fn binary_value(b: Seq<u8>) -> int {
    0x100_0000_0000_0000 * b[0] + 0x1_0000_0000_0000 * b[1] + 0x100_0000_0000 * b[2]
        + 0x1_0000_0000 * b[3] + 0x100_0000 * b[4] + 0x1_0000 * b[5] + 0x100 * b[6] + b[7]
}

/// The byte that is found first is the wanted one, and none before it is.
pub proof fn lemma_first_at(bytes: Seq<u8>, wanted: u8)
    ensures
        0 <= first_at(bytes, wanted) <= bytes.len(),
        forall|i: int| 0 <= i < first_at(bytes, wanted) ==> bytes[i] != wanted,
        first_at(bytes, wanted) < bytes.len() ==> bytes[first_at(bytes, wanted)] == wanted,
    decreases bytes.len(),
{
    if bytes.len() > 0 && bytes[0] != wanted {
        lemma_first_at(bytes.skip(1), wanted);
        assert forall|i: int| 0 <= i < first_at(bytes, wanted) implies bytes[i] != wanted by {
            if i > 0 {
                assert(bytes.skip(1)[i - 1] == bytes[i]);
            }
        }
    }
}

/// A longer run of digits stands for a number at least as large.
proof fn lemma_radix_value_grows(s: Seq<char>, radix: int, n: int)
    requires
        radix == 8 || radix == 10,
        0 <= n <= s.len(),
        forall|i: int| 0 <= i < s.len() ==> is_radix_digit(#[trigger] s[i], radix),
    ensures
        0 <= radix_value(s.take(n), radix) <= radix_value(s, radix),
    decreases s.len(),
{
    if s.len() > 0 {
        let before = s.drop_last();
        let value = radix_value(before, radix);
        assert(is_radix_digit(s[s.len() - 1], radix));
        assert forall|i: int| 0 <= i < before.len() implies is_radix_digit(
            #[trigger] before[i],
            radix,
        ) by {
            assert(is_radix_digit(s[i], radix));
        }
        let m = if n < s.len() {
            n
        } else {
            n - 1
        };
        lemma_radix_value_grows(before, radix, m);
        assert(before.take(m) =~= s.take(m));
        assert(radix * value >= value) by (nonlinear_arith)
            requires
                radix >= 1,
                value >= 0,
        ;
        if n == s.len() {
            assert(s.take(n) =~= s);
        }
    } else {
        assert(s.take(n) =~= s);
    }
}

/// The characters that are white space, one by one.
pub proof fn lemma_white_space_is(c: char)
    ensures
        is_white_space(c) <==> {
            ||| c == '\t' || c == '\n' || c == '\u{b}' || c == '\u{c}' || c == '\r' || c == ' '
            ||| c == '\u{85}' || c == '\u{a0}' || c == '\u{1680}'
            ||| c == '\u{2000}' || c == '\u{2001}' || c == '\u{2002}' || c == '\u{2003}'
            ||| c == '\u{2004}' || c == '\u{2005}' || c == '\u{2006}' || c == '\u{2007}'
            ||| c == '\u{2008}' || c == '\u{2009}' || c == '\u{200a}'
            ||| c == '\u{2028}' || c == '\u{2029}' || c == '\u{202f}' || c == '\u{205f}'
            ||| c == '\u{3000}'
        },
{
}

/// Trimming takes away the white space at either end and nothing else: what is
/// left starts and ends with something else, or is nothing.
pub proof fn lemma_trimmed_is_the_middle(front: Seq<char>, middle: Seq<char>, back: Seq<char>)
    requires
        forall|i: int| 0 <= i < front.len() ==> is_white_space(#[trigger] front[i]),
        forall|i: int| 0 <= i < back.len() ==> is_white_space(#[trigger] back[i]),
        middle.len() > 0,
        !is_white_space(middle[0]),
        !is_white_space(middle[middle.len() - 1]),
    ensures
        trimmed_back(trimmed_front(front + middle + back)) == middle,
    decreases front.len() + back.len(),
{
    let whole = front + middle + back;
    if front.len() > 0 {
        assert(is_white_space(front[0]) && whole[0] == front[0]);
        assert(whole.skip(1) =~= front.skip(1) + middle + back);
        assert forall|i: int| 0 <= i < front.skip(1).len() implies is_white_space(
            #[trigger] front.skip(1)[i],
        ) by {
            assert(is_white_space(front[i + 1]));
        }
        lemma_trimmed_is_the_middle(front.skip(1), middle, back);
    } else if back.len() > 0 {
        assert(whole[0] == middle[0]);
        let shorter = front + middle + back.drop_last();
        assert(whole.last() == back[back.len() - 1]);
        assert(whole.drop_last() =~= shorter);
        assert(shorter[0] == middle[0]);
        assert forall|i: int| 0 <= i < back.drop_last().len() implies is_white_space(
            #[trigger] back.drop_last()[i],
        ) by {
            assert(is_white_space(back[i]));
        }
        lemma_trimmed_is_the_middle(front, middle, back.drop_last());
    } else {
        assert(whole =~= middle);
        assert(middle.last() == middle[middle.len() - 1]);
    }
}

/// The value of digits behind others is that of the others, as often multiplied
/// by the radix as there are digits behind them, and that of the digits.
pub proof fn lemma_radix_value_of_two(a: Seq<char>, b: Seq<char>, radix: int)
    ensures
        radix_value(a + b, radix) == radix_value(a, radix) * pow(radix, b.len()) + radix_value(
            b,
            radix,
        ),
        forall|c: char| radix_value(#[trigger] seq![c], radix) == c as int - '0' as int,
    decreases b.len(),
{
    assert forall|c: char| radix_value(#[trigger] seq![c], radix) == c as int - '0' as int by {
        reveal_with_fuel(radix_value, 2);
        assert(seq![c].drop_last() =~= Seq::<char>::empty());
        assert(radix * 0 == 0) by (nonlinear_arith);
    }
    reveal(pow);
    let x = radix_value(a, radix);
    if b.len() == 0 {
        assert(a + b =~= a);
        assert(x * 1 == x) by (nonlinear_arith);
    } else {
        let before = b.drop_last();
        lemma_radix_value_of_two(a, before, radix);
        assert((a + b).drop_last() =~= a + before);
        assert((a + b).last() == b.last());
        let p = pow(radix, before.len());
        let y = radix_value(before, radix);
        assert(pow(radix, b.len()) == radix * p);
        assert(radix * (x * p + y) == x * (radix * p) + radix * y) by (nonlinear_arith);
    }
}

/// Decimal digits read as the number that they stand for in any text.
pub proof fn lemma_radix_ten_is_decimal(digits: Seq<char>)
    ensures
        radix_value(digits, 10) == decimal_value(digits),
    decreases digits.len(),
{
    if digits.len() > 0 {
        lemma_radix_ten_is_decimal(digits.drop_last());
    }
}

/// A number is read exactly where there is one digit at least, behind a plus
/// sign or not, all are below the radix, and the number is within the range of
/// `u64`: it is the one that the digits stand for.
pub proof fn lemma_number_is_its_digits(digits: Seq<char>, radix: int)
    requires
        radix == 8 || radix == 10,
        digits.len() > 0 ==> digits[0] != '+',
    ensures
        ({
            let in_order = digits.len() > 0 && forall|i: int|
                0 <= i < digits.len() ==> '0' as int <= (#[trigger] digits[i]) as int && (
                digits[i] as int) < '0' as int + radix;
            let value = radix_value(digits, radix);
            &&& in_order && value <= u64::MAX ==> parsed_number(digits, radix) == Some(value)
            &&& !(in_order && value <= u64::MAX) ==> parsed_number(digits, radix) is None
            &&& parsed_number(seq!['+'] + digits, radix) == parsed_number(digits, radix)
            &&& parsed_number(seq!['+', '+'] + digits, radix) is None
        }),
{
    let twice = (seq!['+', '+'] + digits).skip(1);
    assert(twice[0] == '+');
    assert(!is_radix_digit(twice[0], radix));
    assert((seq!['+'] + digits).skip(1) =~= digits);
    if are_radix_digits(digits, radix) {
        assert forall|i: int| 0 <= i < digits.len() implies '0' as int <= (
        #[trigger] digits[i]) as int && (digits[i] as int) < '0' as int + radix by {
            assert(is_radix_digit(digits[i], radix));
        }
    }
}

/// The number in a field is that of the text up to its first zero byte, or of
/// all of it, without the white space around it: whatever follows a zero byte
/// does not matter.
pub proof fn lemma_field_ends_at_zero(text: Seq<char>, rest: Seq<u8>)
    requires
        forall|i: int| 0 <= i < encode_utf8(text).len() ==> encode_utf8(text)[i] != 0,
    ensures
        octal_field(encode_utf8(text) + seq![0u8] + rest) == parsed_number(
            trimmed_back(trimmed_front(text)),
            8,
        ),
        octal_field(encode_utf8(text)) == parsed_number(trimmed_back(trimmed_front(text)), 8),
        decimal_bytes(encode_utf8(text)) == parsed_number(text, 10),
{
    let bytes = encode_utf8(text);
    let field = bytes + seq![0u8] + rest;
    encode_utf8_valid_utf8(text);
    encode_utf8_decode_utf8(text);
    lemma_first_at(field, 0);
    lemma_first_at(bytes, 0);
    let first = first_at(field, 0);
    if first < bytes.len() {
        assert(field[first] == bytes[first]);
    }
    if first > bytes.len() {
        assert(field[bytes.len() as int] == 0);
    }
    assert(field.take(bytes.len() as int) =~= bytes);
    assert(bytes.take(bytes.len() as int) =~= bytes);
}

/// A field or a number that is no text is not read.
pub proof fn lemma_field_has_to_be_text(bytes: Seq<u8>, rest: Seq<u8>)
    requires
        !valid_utf8(bytes),
    ensures
        decimal_bytes(bytes) is None,
        (forall|i: int| 0 <= i < bytes.len() ==> bytes[i] != 0) ==> octal_field(
            bytes + seq![0u8] + rest,
        ) is None,
{
    if forall|i: int| 0 <= i < bytes.len() ==> bytes[i] != 0 {
        let field = bytes + seq![0u8] + rest;
        lemma_first_at(field, 0);
        let first = first_at(field, 0);
        if first < bytes.len() {
            assert(field[first] == bytes[first]);
        }
        if first > bytes.len() {
            assert(field[bytes.len() as int] == 0);
        }
        assert(field.take(bytes.len() as int) =~= bytes);
    }
}

/// The eight bytes of a number are its digits to the base of 256, the most
/// significant first.
pub proof fn lemma_binary_is_base_256(b: Seq<u8>)
    ensures
        binary_value(b) == 256 * (256 * (256 * (256 * (256 * (256 * (256 * b[0] + b[1]) + b[2])
            + b[3]) + b[4]) + b[5]) + b[6]) + b[7],
{
}

/// Where `wanted` first is in `bytes`, or their number.
pub fn find_byte(bytes: &[u8], wanted: u8) -> (at: usize)
    ensures
        at == first_at(bytes@, wanted),
        at <= bytes@.len(),
{
    let mut at: usize = 0;
    while at < bytes.len() && bytes[at] != wanted
        invariant
            at <= bytes@.len(),
            forall|j: int| 0 <= j < at ==> bytes@[j] != wanted,
        decreases bytes@.len() - at,
    {
        at = at + 1;
    }
    proof {
        lemma_first_at(bytes@, wanted);
        let first = first_at(bytes@, wanted);
        if first < at {
            assert(bytes@[first] != wanted);
        }
    }
    at
}

/// Whether `c` is white space.
fn white_space(c: char) -> (white: bool)
    ensures
        white == is_white_space(c),
{
    ('\u{9}' <= c && c <= '\u{d}') || c == '\u{20}' || c == '\u{85}' || c == '\u{a0}' || c
        == '\u{1680}' || ('\u{2000}' <= c && c <= '\u{200a}') || c == '\u{2028}' || c == '\u{2029}'
        || c == '\u{202f}' || c == '\u{205f}' || c == '\u{3000}'
}

/// Reads a number, behind an optional plus sign.
fn parse_number(chars: &[char], radix: u64) -> (value: Option<u64>)
    requires
        radix == 8 || radix == 10,
    ensures
        match value {
            Some(v) => parsed_number(chars@, radix as int) == Some(v as int),
            None => parsed_number(chars@, radix as int) is None,
        },
{
    let signed: bool = chars.len() > 0 && chars[0] == '+';
    let start: usize = if signed {
        1
    } else {
        0
    };
    let ghost digits = if signed {
        chars@.skip(1)
    } else {
        chars@
    };
    if chars.len() == start {
        return None;
    }
    let mut value: u64 = 0;
    let mut i: usize = start;
    while i < chars.len()
        invariant
            radix == 8 || radix == 10,
            start <= i <= chars@.len(),
            start == (if signed { 1int } else { 0int }),
            signed == (chars@.len() > 0 && chars@[0] == '+'),
            digits == (if signed { chars@.skip(1) } else { chars@ }),
            forall|j: int|
                0 <= j < i - start ==> is_radix_digit(#[trigger] digits[j], radix as int),
            value == radix_value(digits.take(i - start), radix as int),
        decreases chars@.len() - i,
    {
        let c: char = chars[i];
        assert(digits[i - start] == c);
        let highest: char = if radix == 8 {
            '7'
        } else {
            '9'
        };
        if c < '0' || c > highest {
            assert(!is_radix_digit(digits[i - start], radix as int));
            assert(!are_radix_digits(digits, radix as int));
            return None;
        }
        proof {
            assert(digits.take(i - start + 1).drop_last() =~= digits.take(i - start));
            assert(digits.take(i - start + 1).last() == c);
            assert(radix as int * value as int == (if radix == 8 {
                8 * value
            } else {
                10 * value
            })) by (nonlinear_arith)
                requires
                    radix == 8 || radix == 10,
            ;
        }
        let scaled: u128 = if radix == 8 {
            value as u128 * 8
        } else {
            value as u128 * 10
        };
        let next: u128 = scaled + (c as u32 - 48) as u128;
        assert(next == radix_value(digits.take(i - start + 1), radix as int));
        if next > u64::MAX as u128 {
            proof {
                if are_radix_digits(digits, radix as int) {
                    lemma_radix_value_grows(digits, radix as int, i - start + 1);
                }
            }
            return None;
        }
        value = next as u64;
        i = i + 1;
    }
    assert(digits.take(digits.len() as int) =~= digits);
    Some(value)
}

/// The characters of `chars` without the white space around them.
fn trim(chars: &[char]) -> (rest: &[char])
    ensures
        rest@ == trimmed_back(trimmed_front(chars@)),
{
    let len: usize = chars.len();
    let mut start: usize = 0;
    assert(chars@.skip(0) =~= chars@);
    while start < len && white_space(chars[start])
        invariant
            len == chars@.len(),
            start <= len,
            trimmed_front(chars@) == trimmed_front(chars@.skip(start as int)),
        decreases len - start,
    {
        assert(chars@.skip(start as int).skip(1) =~= chars@.skip(start + 1));
        start = start + 1;
    }
    assert(trimmed_front(chars@) == chars@.skip(start as int));
    let ghost front = chars@.skip(start as int);
    let mut end: usize = len;
    assert(chars@.subrange(start as int, end as int) =~= front);
    while end > start && white_space(chars[end - 1])
        invariant
            len == chars@.len(),
            start <= end <= len,
            trimmed_back(front) == trimmed_back(chars@.subrange(start as int, end as int)),
        decreases end,
    {
        let ghost whole = chars@.subrange(start as int, end as int);
        assert(whole.last() == chars@[end - 1]);
        assert(whole.drop_last() =~= chars@.subrange(start as int, end - 1));
        end = end - 1;
    }
    proof {
        let whole = chars@.subrange(start as int, end as int);
        if end > start {
            assert(whole.last() == chars@[end - 1]);
        }
        assert(trimmed_back(whole) == whole);
    }
    slice_subrange(chars, start, end)
}

/// Reads the octal number in a field.
pub fn parse_octal_field(field: &[u8]) -> (value: Option<u64>)
    ensures
        match value {
            Some(v) => octal_field(field@) == Some(v as int),
            None => octal_field(field@) is None,
        },
{
    let end: usize = find_byte(field, 0);
    let bytes: &[u8] = slice_subrange(field, 0, end);
    assert(bytes@ =~= field@.take(end as int));
    match utf8_text(slice_to_vec(bytes)) {
        Some(text) => {
            let chars: Vec<char> = chars_of(text.as_str());
            parse_number(trim(chars.as_slice()), 8)
        },
        None => None,
    }
}

/// Reads the decimal number in `bytes`.
pub fn parse_decimal_bytes(bytes: &[u8]) -> (value: Option<u64>)
    ensures
        match value {
            Some(v) => decimal_bytes(bytes@) == Some(v as int),
            None => decimal_bytes(bytes@) is None,
        },
{
    match utf8_text(slice_to_vec(bytes)) {
        Some(text) => {
            let chars: Vec<char> = chars_of(text.as_str());
            parse_number(chars.as_slice(), 10)
        },
        None => None,
    }
}

/// Reads the number whose eight bytes these are.
pub fn parse_binary(b: &[u8]) -> (value: u64)
    requires
        b@.len() == 8,
    ensures
        value == binary_value(b@),
{
    0x100_0000_0000_0000 * b[0] as u64 + 0x1_0000_0000_0000 * b[1] as u64 + 0x100_0000_0000
        * b[2] as u64 + 0x1_0000_0000 * b[3] as u64 + 0x100_0000 * b[4] as u64 + 0x1_0000
        * b[5] as u64 + 0x100 * b[6] as u64 + b[7] as u64
}

} // verus!
