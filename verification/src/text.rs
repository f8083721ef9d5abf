//! Text.

use vstd::prelude::*;
use vstd::string::{StrSliceExecFns, StringExecFns};

use crate::bits::bit_set;

verus! {

/// Whether two texts are the same.
pub fn same_text(a: &str, b: &str) -> (r: bool)
    ensures
        r == (a@ == b@),
{
    let left: String = a.to_owned();
    let right: String = b.to_owned();
    left == right
}

/// `String::push` appends one character.
pub assume_specification[ String::push ](s: &mut String, c: char)
    ensures
        final(s)@ == old(s)@.push(c),
;

/// The character of a bit.
pub open spec fn bit_char(set: bool) -> char {
    if set {
        '1'
    } else {
        '0'
    }
}

/// A number in binary, with `width` digits; zero has a digit even where `width` is zero.
pub open spec fn binary_text(value: usize, width: nat) -> Seq<char> {
    if width == 0 {
        seq!['0']
    } else {
        Seq::new(width, |i: int| bit_char(bit_set(value, (width - 1 - i) as usize)))
    }
}

/// Writes a number below `2^width` in binary, padded with zeros to `width` digits.
pub fn format_binary(value: usize, width: usize) -> (r: String)
    requires
        width <= usize::BITS,
    ensures
        r@ == binary_text(value, width as nat),
{
    let mut text: String = String::new();
    if width == 0 {
        text.push('0');
        assert(text@ =~= seq!['0']);
        return text;
    }
    let mut i: usize = 0;
    while i < width
        invariant
            i <= width <= usize::BITS,
            text@.len() == i,
            forall|j: int|
                0 <= j < i ==> #[trigger] text@[j] == bit_char(
                    bit_set(value, (width - 1 - j) as usize),
                ),
        decreases width - i,
    {
        let q: usize = width - 1 - i;
        if value & (1usize << q) != 0 {
            text.push('1');
        } else {
            text.push('0');
        }
        i = i + 1;
    }
    assert(text@ =~= binary_text(value, width as nat));
    text
}

/// The decimal digit of a number below ten.
pub open spec fn digit_char(d: nat) -> char {
    if d == 0 {
        '0'
    } else if d == 1 {
        '1'
    } else if d == 2 {
        '2'
    } else if d == 3 {
        '3'
    } else if d == 4 {
        '4'
    } else if d == 5 {
        '5'
    } else if d == 6 {
        '6'
    } else if d == 7 {
        '7'
    } else if d == 8 {
        '8'
    } else {
        '9'
    }
}

/// A natural number in decimal.
pub open spec fn decimal_nat(value: nat) -> Seq<char>
    decreases value,
{
    if value < 10 {
        seq![digit_char(value)]
    } else {
        decimal_nat(value / 10).push(digit_char(value % 10))
    }
}

/// A number in decimal, with a sign if it is negative.
pub open spec fn decimal(value: int) -> Seq<char> {
    if value < 0 {
        seq!['-'] + decimal_nat((-value) as nat)
    } else {
        decimal_nat(value as nat)
    }
}

fn digit_of(d: u64) -> (c: char)
    requires
        d < 10,
    ensures
        c == digit_char(d as nat),
{
    match d {
        0 => '0',
        1 => '1',
        2 => '2',
        3 => '3',
        4 => '4',
        5 => '5',
        6 => '6',
        7 => '7',
        8 => '8',
        _ => '9',
    }
}

/// Appends a natural number in decimal.
pub fn push_decimal(out: &mut String, value: u64)
    ensures
        final(out)@ == old(out)@ + decimal_nat(value as nat),
    decreases value,
{
    let ghost before = out@;
    if value < 10 {
        out.push(digit_of(value));
        assert(out@ =~= before + decimal_nat(value as nat));
    } else {
        push_decimal(out, value / 10);
        out.push(digit_of(value % 10));
        assert(out@ =~= before + decimal_nat(value as nat));
    }
}

/// Appends a number in decimal, with a sign if it is negative.
pub fn push_signed_decimal(out: &mut String, value: i32)
    ensures
        final(out)@ == old(out)@ + decimal(value as int),
{
    let ghost before = out@;
    let wide: i64 = value as i64;
    if wide < 0 {
        out.push('-');
        let size: u64 = (-wide) as u64;
        push_decimal(out, size);
        assert(out@ =~= before + decimal(value as int));
    } else {
        push_decimal(out, wide as u64);
        assert(out@ =~= before + decimal(value as int));
    }
}

/// Appends a text.
pub fn push_text(out: &mut String, text: &str)
    ensures
        final(out)@ == old(out)@ + text@,
{
    out.append(text);
}

/// A text without the white space at its two ends.
pub uninterp spec fn trimmed(text: Seq<char>) -> Seq<char>;

/// A text in lower case.
pub uninterp spec fn lowercased(text: Seq<char>) -> Seq<char>;

/// `str::trim`: the result is a function of the text.
#[verifier::external_body]
pub(crate) fn trim_text(text: &str) -> (r: &str)
    ensures
        r@ == trimmed(text@),
{
    text.trim()
}

/// `str::to_lowercase`: the result is a function of the text.
#[verifier::external_body]
pub(crate) fn lower_text(text: &str) -> (r: String)
    ensures
        r@ == lowercased(text@),
{
    text.to_lowercase()
}

/// A text in double quotes, with escapes where it needs them.
pub uninterp spec fn quoted(text: Seq<char>) -> Seq<char>;

/// The `Debug` form of a text, as `format!` writes it: a function of the text.
#[verifier::external_body]
pub(crate) fn quote_text(text: &str) -> (r: String)
    ensures
        r@ == quoted(text@),
{
    format!("{text:?}")
}

/// A character in lower case if it is an ASCII letter, and the character itself otherwise.
pub open spec fn ascii_lower(c: char) -> char {
    if 'A' <= c <= 'Z' {
        (c as u32 + 32) as char
    } else {
        c
    }
}

/// `str::to_ascii_lowercase`: the ASCII letters are put in lower case, one by one.
#[verifier::external_body]
pub(crate) fn ascii_lower_text(text: &str) -> (r: String)
    ensures
        r@ == text@.map_values(|c: char| ascii_lower(c)),
{
    text.to_ascii_lowercase()
}

/// The form in which words are compared: without white space around them, ASCII letters in
/// lower case.
pub open spec fn word_form(text: Seq<char>) -> Seq<char> {
    trimmed(text).map_values(|c: char| ascii_lower(c))
}

/// The form in which words are compared.
pub fn to_word(text: &str) -> (r: String)
    ensures
        r@ == word_form(text@),
{
    ascii_lower_text(trim_text(text))
}

/// Whether a text begins with another one.
pub fn has_prefix(text: &str, prefix: &str) -> (r: bool)
    ensures
        r == prefix@.is_prefix_of(text@),
{
    let length: usize = text.unicode_len();
    let wanted: usize = prefix.unicode_len();
    if length < wanted {
        return false;
    }
    let mut i: usize = 0;
    while i < wanted
        invariant
            i <= wanted,
            wanted == prefix@.len(),
            wanted <= text@.len(),
            forall|j: int| 0 <= j < i ==> #[trigger] prefix@[j] == text@[j],
        decreases wanted - i,
    {
        if prefix.get_char(i) != text.get_char(i) {
            return false;
        }
        i = i + 1;
    }
    assert(prefix@ =~= text@.subrange(0, prefix@.len() as int));
    true
}

/// A text with every hyphen replaced by an underscore.
pub open spec fn underscored(text: Seq<char>) -> Seq<char> {
    text.map_values(
        |c: char|
            if c == '-' {
                '_'
            } else {
                c
            },
    )
}

/// A text with every hyphen replaced by an underscore.
pub fn underscore_text(text: &str) -> (r: String)
    ensures
        r@ == underscored(text@),
{
    let length: usize = text.unicode_len();
    let mut out: String = String::new();
    let mut i: usize = 0;
    while i < length
        invariant
            i <= length,
            length == text@.len(),
            out@.len() == i,
            forall|j: int| 0 <= j < i ==> #[trigger] out@[j] == underscored(text@)[j],
        decreases length - i,
    {
        let c: char = text.get_char(i);
        if c == '-' {
            out.push('_');
        } else {
            out.push(c);
        }
        i = i + 1;
    }
    assert(out@ =~= underscored(text@));
    out
}

/// The value of a decimal digit.
pub open spec fn digit_value(c: char) -> Option<nat> {
    if '0' <= c <= '9' {
        Some((c as u32 - 48) as nat)
    } else {
        None
    }
}

/// The value of a sequence of decimal digits; nothing if another character occurs in it.
pub open spec fn digits_value(text: Seq<char>) -> Option<nat>
    decreases text.len(),
{
    if text.len() == 0 {
        Some(0nat)
    } else {
        match (digits_value(text.drop_last()), digit_value(text.last())) {
            (Some(high), Some(digit)) => Some(10 * high + digit),
            _ => None,
        }
    }
}

/// The number that a text writes in decimal: digits, possibly after a plus sign, and no
/// larger than fits.
pub open spec fn parsed_usize(text: Seq<char>) -> Option<usize> {
    let digits = if text.len() > 0 && text[0] == '+' {
        text.skip(1)
    } else {
        text
    };
    match digits_value(digits) {
        Some(value) => if digits.len() > 0 && value <= usize::MAX {
            Some(value as usize)
        } else {
            None
        },
        None => None,
    }
}

proof fn lemma_digits_grow(text: Seq<char>, i: int)
    requires
        0 <= i <= text.len(),
        digits_value(text) is Some,
    ensures
        digits_value(text.take(i)) is Some,
        digits_value(text.take(i))->0 <= digits_value(text)->0,
    decreases text.len() - i,
{
    if i == text.len() {
        assert(text.take(i) =~= text);
    } else {
        lemma_digits_grow(text, i + 1);
        assert(text.take(i + 1).drop_last() =~= text.take(i));
    }
}

/// Reads a number in decimal: digits, possibly after a plus sign.
pub fn parse_usize(text: &str) -> (r: Option<usize>)
    ensures
        r == parsed_usize(text@),
{
    let length: usize = text.unicode_len();
    let first: usize = if length > 0 && text.get_char(0) == '+' {
        1
    } else {
        0
    };
    let ghost digits = text@.skip(first as int);
    proof {
        assert(text@.skip(0) =~= text@);
    }
    if first == length {
        return None;
    }
    let mut value: usize = 0;
    let mut i: usize = first;
    assert(digits.take(0) =~= Seq::<char>::empty());
    while i < length
        invariant
            first <= i <= length,
            length == text@.len(),
            digits == text@.skip(first as int),
            digits_value(digits.take(i - first)) == Some(value as nat),
            digits.len() > 0,
            parsed_usize(text@) == (match digits_value(digits) {
                Some(v) => if v <= usize::MAX {
                    Some(v as usize)
                } else {
                    None
                },
                None => None,
            }),
        decreases length - i,
    {
        let c: char = text.get_char(i);
        proof {
            assert(digits.take(i + 1 - first).drop_last() =~= digits.take(i - first));
            assert(digits.take(i + 1 - first).last() == c);
            if digits_value(digits) is Some {
                lemma_digits_grow(digits, i + 1 - first);
            }
        }
        if !('0' <= c && c <= '9') {
            return None;
        }
        let digit: usize = (c as u32 - 48) as usize;
        let scaled: usize = match value.checked_mul(10) {
            Some(scaled) => scaled,
            None => {
                return None;
            },
        };
        value = match scaled.checked_add(digit) {
            Some(sum) => sum,
            None => {
                return None;
            },
        };
        i = i + 1;
    }
    assert(digits.take(i - first) =~= digits);
    Some(value)
}

} // verus!
