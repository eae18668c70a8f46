//! Reading the words of a command line: whether one is a given flag, and what
//! number one spells.

use vstd::prelude::*;
use vstd::string::*;

verus! {

/// Whether `c` is one of the ten decimal digits.
pub open spec fn is_digit(c: char) -> bool {
    '0' <= c <= '9'
}

/// The number that a sequence of decimal digits spells.
pub open spec fn decimal_value(digits: Seq<char>) -> nat
    decreases digits.len(),
{
    if digits.len() == 0 {
        0
    } else {
        10 * decimal_value(digits.drop_last()) + (digits.last() as nat - '0' as nat) as nat
    }
}

/// The number that `digits` spells, if it is made of one or more decimal
/// digits and the number fits into 16 bits.
pub open spec fn spelled_digits(digits: Seq<char>) -> Option<u16> {
    if digits.len() > 0 && (forall|i: int| 0 <= i < digits.len() ==> is_digit(digits[i]))
        && decimal_value(digits) <= u16::MAX {
        Some(decimal_value(digits) as u16)
    } else {
        None
    }
}

/// The number that `word` spells, if it spells one that fits into 16 bits: an
/// optional `+`, then one or more decimal digits and nothing else.
pub open spec fn spelled_u16(word: Seq<char>) -> Option<u16> {
    if word.len() > 0 && word[0] == '+' {
        spelled_digits(word.drop_first())
    } else {
        spelled_digits(word)
    }
}

/// The characters of `word`, one by one.
fn chars_of(word: &str) -> (chars: Vec<char>)
    ensures
        chars@ == word@,
{
    let len: usize = word.unicode_len();
    let mut chars: Vec<char> = Vec::new();
    let mut at: usize = 0;
    while at < len
        invariant
            len == word@.len(),
            at <= len,
            chars@ == word@.take(at as int),
        decreases len - at,
    {
        chars.push(word.get_char(at));
        proof {
            assert(word@.take(at + 1) == word@.take(at as int).push(word@[at as int]));
        }
        at += 1;
    }
    proof {
        assert(word@.take(len as int) == word@);
    }
    chars
}

/// Whether two words are the same, character by character.
pub fn same_text(first: &str, second: &str) -> (same: bool)
    ensures
        same == (first@ == second@),
{
    let left = chars_of(first);
    let right = chars_of(second);
    if left.len() != right.len() {
        return false;
    }
    let mut at: usize = 0;
    while at < left.len()
        invariant
            left@ == first@,
            right@ == second@,
            left.len() == right.len(),
            at <= left.len(),
            forall|i: int| 0 <= i < at ==> left[i] == right[i],
        decreases left.len() - at,
    {
        if left[at] != right[at] {
            return false;
        }
        at += 1;
    }
    proof {
        assert(left@ =~= right@);
    }
    true
}

/// A number spelled by part of the digits is not above the one spelled by all.
proof fn lemma_prefix_value(digits: Seq<char>, len: int)
    requires
        0 <= len <= digits.len(),
    ensures
        decimal_value(digits.take(len)) <= decimal_value(digits),
    decreases digits.len() - len,
{
    if len == digits.len() {
        assert(digits.take(len) == digits);
    } else {
        lemma_prefix_value(digits, len + 1);
        assert(digits.take(len + 1).drop_last() == digits.take(len));
    }
}

/// Reads the number that `word` spells, if it spells one that fits into 16
/// bits.
pub fn parse_u16(word: &str) -> (number: Option<u16>)
    ensures
        number == spelled_u16(word@),
{
    let chars = chars_of(word);
    let start: usize = if chars.len() > 0 && chars[0] == '+' {
        1
    } else {
        0
    };
    let ghost digits = chars@.subrange(start as int, chars.len() as int);
    proof {
        if start == 1 {
            assert(digits == word@.drop_first());
        } else {
            assert(digits == word@);
        }
    }
    if start == chars.len() {
        return None;
    }
    let mut value: u32 = 0;
    let mut at: usize = start;
    proof {
        assert(digits.take(0) == Seq::<char>::empty());
    }
    while at < chars.len()
        invariant
            start <= at <= chars.len(),
            digits == chars@.subrange(start as int, chars.len() as int),
            digits.len() > 0,
            spelled_u16(word@) == spelled_digits(digits),
            forall|i: int| 0 <= i < at - start ==> is_digit(digits[i]),
            value == decimal_value(digits.take(at - start)),
            value <= u16::MAX,
        decreases chars.len() - at,
    {
        let c: char = chars[at];
        if c < '0' || c > '9' {
            proof {
                assert(!is_digit(digits[at - start]));
            }
            return None;
        }
        let digit: u32 = c as u32 - '0' as u32;
        proof {
            assert(digits.take(at - start + 1).drop_last() == digits.take(at - start));
            assert(digits.take(at - start + 1).last() == c);
        }
        value = value * 10 + digit;
        at += 1;
        if value > 65535 {
            proof {
                lemma_prefix_value(digits, at - start);
            }
            return None;
        }
    }
    proof {
        assert(digits.take(at - start) == digits);
    }
    Some(value as u16)
}

} // verus!
