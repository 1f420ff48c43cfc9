//! Decimal numerals: those that the library writes into its texts, and
//! those that it reads from the texts of the system.

use vstd::prelude::*;
use vstd::string::StringExecFns;

verus! {

/// The character of a decimal digit.
pub open spec fn digit_char(d: int) -> char {
    if d == 0 {
        '0'
    } else if d == 1 {
        '1'
    } else if d == 2 {
        '2'
    } else if d == 3 {
        '3'
    } else if d == 4 {
        '4'
    } else if d == 5 {
        '5'
    } else if d == 6 {
        '6'
    } else if d == 7 {
        '7'
    } else if d == 8 {
        '8'
    } else {
        '9'
    }
}

/// The decimal numeral of `n`, without sign or leading zeros.
pub open spec fn decimal_text(n: nat) -> Seq<char>
    decreases n,
{
    if n < 10 {
        seq![digit_char(n as int)]
    } else {
        decimal_text(n / 10).push(digit_char((n % 10) as int))
    }
}

/// The one-character text of a decimal digit.
pub fn digit_str(d: u64) -> (s: &'static str)
    requires
        d < 10,
    ensures
        s@ == seq![digit_char(d as int)],
{
    proof {
        reveal_strlit("0");
        reveal_strlit("1");
        reveal_strlit("2");
        reveal_strlit("3");
        reveal_strlit("4");
        reveal_strlit("5");
        reveal_strlit("6");
        reveal_strlit("7");
        reveal_strlit("8");
        reveal_strlit("9");
    }
    let s = if d == 0 {
        "0"
    } else if d == 1 {
        "1"
    } else if d == 2 {
        "2"
    } else if d == 3 {
        "3"
    } else if d == 4 {
        "4"
    } else if d == 5 {
        "5"
    } else if d == 6 {
        "6"
    } else if d == 7 {
        "7"
    } else if d == 8 {
        "8"
    } else {
        "9"
    };
    assert(s@ =~= seq![digit_char(d as int)]);
    s
}

/// Appends the decimal numeral of `n` to `out`.
pub fn push_decimal(out: &mut String, n: u64)
    ensures
        final(out)@ == old(out)@ + decimal_text(n as nat),
    decreases n,
{
    if n >= 10 {
        push_decimal(out, n / 10);
    }
    out.append(digit_str(n % 10));
    proof {
        if n >= 10 {
            assert(final(out)@ =~= old(out)@ + decimal_text(n as nat));
        } else {
            assert(final(out)@ =~= old(out)@ + decimal_text(n as nat));
        }
    }
}

/// The decimal numeral of `n`.
pub fn decimal(n: u64) -> (text: String)
    ensures
        text@ == decimal_text(n as nat),
{
    let mut text = String::new();
    push_decimal(&mut text, n);
    assert(text@ =~= decimal_text(n as nat));
    text
}

/// Whether `b` is an ASCII white-space character.
pub open spec fn is_space(b: u8) -> bool {
    b == 32u8 || (9u8 <= b && b <= 13u8)
}

/// Whether `b` is an ASCII decimal digit.
pub open spec fn is_digit(b: u8) -> bool {
    48u8 <= b && b <= 57u8
}

/// The first place at or after `i` at which `text` has no white space.
pub open spec fn spaces_end(text: Seq<u8>, i: int) -> int
    decreases text.len() - i,
{
    if 0 <= i < text.len() && is_space(text[i]) {
        spaces_end(text, i + 1)
    } else {
        i
    }
}

/// The first place at or after `i` at which `text` has no digit.
pub open spec fn digits_end(text: Seq<u8>, i: int) -> int
    decreases text.len() - i,
{
    if 0 <= i < text.len() && is_digit(text[i]) {
        digits_end(text, i + 1)
    } else {
        i
    }
}

/// The number that the digits of `text` from `from` up to `to` spell.
pub open spec fn number(text: Seq<u8>, from: int, to: int) -> nat
    decreases to - from,
{
    if to <= from {
        0
    } else {
        number(text, from, to - 1) * 10 + (text[to - 1] - 48) as nat
    }
}

/// The hundredths that the digits after a decimal point spell, which stand
/// in `text` from `from` up to `to`: the first two count, the rest is cut
/// off.
pub open spec fn hundredths(text: Seq<u8>, from: int, to: int) -> nat {
    let tenths: nat = if to > from { ((text[from] - 48) * 10) as nat } else { 0 };
    let rest: nat = if to > from + 1 { (text[from + 1] - 48) as nat } else { 0 };
    tenths + rest
}

/// The seconds that `text` begins with, in hundredths. After white space,
/// if any, the first word of the text is to be a decimal numeral: one or
/// more digits, which may be followed by a point and further digits. The
/// word ends at white space or at the end of the text. `None` where the
/// first word is not of that form or the hundredths do not fit in `u64`.
pub open spec fn seconds_in_hundredths(text: Seq<u8>) -> Option<u64> {
    let start = spaces_end(text, 0);
    let point = digits_end(text, start);
    let end = if point < text.len() && text[point] == 46u8 { digits_end(text, point + 1) } else { point };
    let value = number(text, start, point) * 100 + if end > point {
        hundredths(text, point + 1, end)
    } else {
        0
    };
    if point == start || (end < text.len() && !is_space(text[end])) || value > u64::MAX {
        None
    } else {
        Some(value as u64)
    }
}

/// The number grows with every further digit.
pub proof fn lemma_number_grows(text: Seq<u8>, from: int, mid: int, to: int)
    requires
        0 <= from <= mid <= to <= text.len(),
        forall|k: int| from <= k < to ==> is_digit(text[k]),
    ensures
        number(text, from, mid) <= number(text, from, to),
    decreases to - mid,
{
    if mid < to {
        lemma_number_grows(text, from, mid, to - 1);
    }
}

/// Skips the white space of `text` from `i` on.
fn skip_spaces(text: &[u8], i: usize) -> (end: usize)
    requires
        i <= text.len(),
    ensures
        end == spaces_end(text@, i as int),
        i <= end <= text.len(),
    decreases text.len() - i,
{
    if i < text.len() && (text[i] == 32u8 || (9u8 <= text[i] && text[i] <= 13u8)) {
        skip_spaces(text, i + 1)
    } else {
        i
    }
}

/// Skips the digits of `text` from `i` on.
fn skip_digits(text: &[u8], i: usize) -> (end: usize)
    requires
        i <= text.len(),
    ensures
        end == digits_end(text@, i as int),
        i <= end <= text.len(),
        forall|k: int| i <= k < end ==> is_digit(text@[k]),
        end < text.len() ==> !is_digit(text@[end as int]),
    decreases text.len() - i,
{
    if i < text.len() && 48u8 <= text[i] && text[i] <= 57u8 {
        skip_digits(text, i + 1)
    } else {
        i
    }
}

/// Reads the number that the digits from `from` up to `to` spell; `None`
/// where it does not fit in `u64`.
fn read_number(text: &[u8], from: usize, to: usize) -> (value: Option<u64>)
    requires
        from <= to <= text.len(),
        forall|k: int| from <= k < to ==> is_digit(text@[k]),
    ensures
        match value {
            Some(n) => n == number(text@, from as int, to as int),
            None => number(text@, from as int, to as int) > u64::MAX,
        },
{
    let mut value: u64 = 0;
    let mut i: usize = from;
    while i < to
        invariant
            from <= i <= to <= text.len(),
            forall|k: int| from <= k < to ==> is_digit(text@[k]),
            value == number(text@, from as int, i as int),
        decreases to - i,
    {
        let digit: u64 = (text[i] - 48u8) as u64;
        let next = match value.checked_mul(10) {
            Some(tens) => tens.checked_add(digit),
            None => None,
        };
        proof {
            lemma_number_grows(text@, from as int, i + 1, to as int);
        }
        match next {
            Some(n) => {
                value = n;
            },
            None => {
                return None;
            },
        }
        i += 1;
    }
    Some(value)
}

/// Reads the seconds that `text` begins with, in hundredths of a second.
pub fn parse_seconds(text: &[u8]) -> (centis: Option<u64>)
    ensures
        centis == seconds_in_hundredths(text@),
{
    let start = skip_spaces(text, 0);
    let point = skip_digits(text, start);
    if point == start {
        return None;
    }
    let end = if point < text.len() && text[point] == 46u8 { skip_digits(text, point + 1) } else { point };
    if end < text.len() && !(text[end] == 32u8 || (9u8 <= text[end] && text[end] <= 13u8)) {
        return None;
    }
    let fraction: u64 = if end > point {
        let tenths: u64 = if end - point > 1 { ((text[point + 1] - 48u8) as u64) * 10 } else { 0 };
        let rest: u64 = if end - point > 2 { (text[point + 2] - 48u8) as u64 } else { 0 };
        tenths + rest
    } else {
        0
    };
    let whole = match read_number(text, start, point) {
        Some(whole) => whole,
        None => {
            return None;
        },
    };
    match whole.checked_mul(100) {
        Some(scaled) => scaled.checked_add(fraction),
        None => None,
    }
}

} // verus!
