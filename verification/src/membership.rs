//! Whether a number stands in a comma-separated list of numbers, with a
//! lenient reading of the numbers: whatever does not spell one counts as 0.
//!
//! A malformed token can therefore not be told from a literal `0`. Callers
//! for whom that matters read the tokens with `parse_strict`.

use crate::text::chars_of;
use e9571_lib1::e9571_lib1::word_split;
use vstd::prelude::*;

verus! {

/// One of `0`..`9`.
pub open spec fn is_digit(c: char) -> bool {
    '0' <= c <= '9'
}

/// Every character of `s` is a decimal digit.
pub open spec fn all_digits(s: Seq<char>) -> bool {
    forall|i: int| 0 <= i < s.len() ==> is_digit(#[trigger] s[i])
}

/// The number that the decimal digits `s` spell; 0 for no digits at all.
pub open spec fn decimal_value(s: Seq<char>) -> nat
    decreases s.len(),
{
    if s.len() == 0 {
        0
    } else {
        (decimal_value(s.drop_last()) * 10 + (s.last() as int - '0' as int)) as nat
    }
}

/// The length of the sign in front of `s`: 1 for a leading `+` or `-`, else 0.
pub open spec fn sign_len(s: Seq<char>) -> int {
    if s.len() > 0 && (s[0] == '-' || s[0] == '+') {
        1
    } else {
        0
    }
}

/// The number that `s` spells: an optional `+` or `-`, then one decimal
/// digit or more and nothing else, with a value that an `i32` holds.
/// `None` for every other text: the empty one, a sign alone, blanks, a
/// value out of range.
pub open spec fn strict_value(s: Seq<char>) -> Option<i32> {
    let digits = s.skip(sign_len(s));
    let magnitude = decimal_value(digits);
    let value = if s.len() > 0 && s[0] == '-' {
        -magnitude
    } else {
        magnitude as int
    };
    if digits.len() > 0 && all_digits(digits) && i32::MIN <= value <= i32::MAX {
        Some(value as i32)
    } else {
        None
    }
}

/// The number that `s` spells, and 0 where it spells none.
pub open spec fn lenient_value(s: Seq<char>) -> i32 {
    match strict_value(s) {
        Some(value) => value,
        None => 0,
    }
}

/// More digits never spell a smaller number.
proof fn lemma_decimal_value_step(s: Seq<char>)
    requires
        s.len() > 0,
        all_digits(s),
    ensures
        decimal_value(s) == decimal_value(s.drop_last()) * 10 + (s.last() as int - '0' as int),
        decimal_value(s) >= decimal_value(s.drop_last()),
{
    assert(is_digit(s[s.len() - 1]));
}

/// The number that `text` spells, or `None` where it spells none.
pub fn parse_strict(text: &str) -> (parsed: Option<i32>)
    ensures
        parsed == strict_value(text@),
{
    let chars = chars_of(text);
    let n: usize = chars.len();
    if n == 0 {
        return None;
    }
    let negative: bool = chars[0] == '-';
    let start: usize = if chars[0] == '-' || chars[0] == '+' {
        1
    } else {
        0
    };
    if start == n {
        return None;
    }
    let ghost digits = text@.skip(start as int);
    let mut magnitude: i64 = 0;
    let mut too_large: bool = false;
    let mut i: usize = start;
    assert(text@.subrange(start as int, start as int) =~= Seq::<char>::empty());
    while i < n
        invariant
            start <= i <= n,
            n == chars.len(),
            chars@ == text@,
            start == sign_len(text@),
            digits == text@.skip(start as int),
            all_digits(text@.subrange(start as int, i as int)),
            !too_large ==> magnitude == decimal_value(text@.subrange(start as int, i as int))
                && magnitude <= 0x8000_0000,
            too_large ==> decimal_value(text@.subrange(start as int, i as int)) > 0x8000_0000,
        decreases n - i,
    {
        let c: char = chars[i];
        if !('0' <= c && c <= '9') {
            assert(digits[i - start] == c);
            return None;
        }
        proof {
            let longer = text@.subrange(start as int, i + 1);
            assert(longer.drop_last() =~= text@.subrange(start as int, i as int));
            assert(longer.last() == c);
            assert forall|k: int| 0 <= k < longer.len() implies is_digit(#[trigger] longer[k]) by {
                if k < longer.len() - 1 {
                    assert(longer[k] == text@.subrange(start as int, i as int)[k]);
                }
            }
            lemma_decimal_value_step(longer);
        }
        if !too_large {
            let digit: i64 = (c as u8 - 48) as i64;
            magnitude = magnitude * 10 + digit;
            if magnitude > 0x8000_0000 {
                too_large = true;
            }
        }
        i += 1;
    }
    assert(text@.subrange(start as int, n as int) =~= digits);
    if too_large {
        None
    } else if negative {
        Some((-magnitude) as i32)
    } else if magnitude <= 0x7fff_ffff {
        Some(magnitude as i32)
    } else {
        None
    }
}

/// The number that `text` spells, and 0 where it spells none.
pub fn parse_lenient(text: &str) -> (value: i32)
    ensures
        value == lenient_value(text@),
{
    match parse_strict(text) {
        Some(value) => value,
        None => 0,
    }
}

/// The tokens of `text`: what stands before the first `sep`, between each
/// `sep` and the next, and behind the last, in that order. Empty tokens are
/// kept, so a text with n separators has n + 1 tokens, and the empty text
/// has one, which is empty.
pub open spec fn tokens(text: Seq<char>, sep: char) -> Seq<Seq<char>>
    decreases text.len(),
{
    if text.len() == 0 {
        seq![Seq::empty()]
    } else {
        let before = tokens(text.drop_last(), sep);
        if text.last() == sep {
            before.push(Seq::empty())
        } else {
            before.drop_last().push(before.last().push(text.last()))
        }
    }
}

/// Calls `e9571_lib1::e9571_lib1::word_split`, which is `str::split` on the
/// separator with each piece copied into a `String`. Trusted, for a
/// separator of one character: that the pieces are the tokens of `text`,
/// empty ones included, in their order.
#[verifier::external_body]
fn split_tokens(text: &str, sep: &str) -> (parts: Vec<String>)
    requires
        sep@.len() == 1,
    ensures
        parts.deep_view() == tokens(text@, sep@[0]),
{
    word_split(text, sep)
}

/// Some token, read leniently, is `value`.
pub open spec fn holds_value(list: Seq<Seq<char>>, value: i32) -> bool {
    exists|i: int| 0 <= i < list.len() && lenient_value(#[trigger] list[i]) == value
}

/// Whether some text of `list`, read leniently, is `value`.
pub fn any_spells(list: &[String], value: i32) -> (found: bool)
    ensures
        found == holds_value(list.deep_view(), value),
{
    let ghost texts = list.deep_view();
    let mut i: usize = 0;
    while i < list.len()
        invariant
            i <= list.len(),
            texts == list.deep_view(),
            forall|k: int| 0 <= k < i ==> lenient_value(#[trigger] texts[k]) != value,
        decreases list.len() - i,
    {
        assert(texts[i as int] == list[i as int]@);
        if parse_lenient(list[i].as_str()) == value {
            return true;
        }
        i += 1;
    }
    false
}

/// 1 if the number that `data2` spells stands in the comma-separated list
/// `data1`, else 0. Both the tokens of the list and `data2` are read
/// leniently: what spells no number counts as 0.
pub fn str_count_int(data1: &str, data2: &str) -> (found: i32)
    ensures
        found == if holds_value(tokens(data1@, ','), lenient_value(data2@)) {
            1i32
        } else {
            0i32
        },
{
    proof {
        reveal_strlit(",");
    }
    let list = split_tokens(data1, ",");
    let target: i32 = parse_lenient(data2);
    if any_spells(list.as_slice(), target) {
        1
    } else {
        0
    }
}

} // verus!
