//! Query offsets as they are written: decimal, or hexadecimal behind `0x`
//! or `0X`.

use vstd::prelude::*;

verus! {

/// The value of a character as a digit of any radix: `0` to `9`, then the
/// letters of either case from ten on.
pub open spec fn digit_number(c: char) -> Option<int> {
    if '0' <= c <= '9' {
        Some(c as int - '0' as int)
    } else if 'a' <= c <= 'z' {
        Some(c as int - 'a' as int + 10)
    } else if 'A' <= c <= 'Z' {
        Some(c as int - 'A' as int + 10)
    } else {
        None
    }
}

/// The value of a character as a digit in the given radix. `None` where
/// the character is no digit or its value does not lie below the radix.
pub open spec fn radix_digit(c: char, radix: int) -> Option<int> {
    match digit_number(c) {
        Some(value) => if value < radix {
            Some(value)
        } else {
            None
        },
        None => None,
    }
}

/// Whether every character is a digit in the given radix.
pub open spec fn all_digits(s: Seq<char>, radix: int) -> bool {
    forall|i: int| 0 <= i < s.len() ==> (#[trigger] radix_digit(s[i], radix)).is_some()
}

/// The number that a run of digits writes, the most significant first.
pub open spec fn digits_value(s: Seq<char>, radix: int) -> int
    decreases s.len(),
{
    if s.len() == 0 {
        0
    } else {
        digits_value(s.drop_last(), radix) * radix + radix_digit(s.last(), radix).unwrap()
    }
}

/// The unsigned 32-bit number that a literal writes in the given radix: an
/// optional `+`, then at least one digit, and nothing else. `None` where
/// the literal is not of that form or the number does not fit.
pub open spec fn parse_unsigned(s: Seq<char>, radix: int) -> Option<u32> {
    let digits = if s.len() > 0 && s[0] == '+' {
        s.skip(1)
    } else {
        s
    };
    if digits.len() > 0 && all_digits(digits, radix) && digits_value(digits, radix) <= u32::MAX {
        Some(digits_value(digits, radix) as u32)
    } else {
        None
    }
}

/// Whether a literal starts with `0x` or `0X`.
pub open spec fn has_hex_prefix(s: Seq<char>) -> bool {
    s.len() >= 2 && s[0] == '0' && (s[1] == 'x' || s[1] == 'X')
}

/// The offset that a literal writes: hexadecimal behind `0x` or `0X`,
/// decimal otherwise.
pub open spec fn parse_offset_spec(s: Seq<char>) -> Option<u32> {
    if has_hex_prefix(s) {
        parse_unsigned(s.skip(2), 16)
    } else {
        parse_unsigned(s, 10)
    }
}

/// The characters of a string.
fn chars_of(s: &str) -> (chars: Vec<char>)
    ensures
        chars@ == s@,
{
    let mut chars: Vec<char> = Vec::new();
    for c in it: s.chars()
        invariant
            it.seq() == s@,
            chars@ == s@.take(it.index() as int),
    {
        chars.push(c);
        assert(s@.take(it.index() + 1) =~= s@.take(it.index() as int).push(c));
    }
    assert(s@.take(s@.len() as int) =~= s@);
    chars
}

/// The value of a character as a digit in the given radix.
fn digit_of(c: char, radix: u32) -> (d: Option<u32>)
    requires
        2 <= radix <= 36,
    ensures
        match d {
            Some(v) => radix_digit(c, radix as int) == Some(v as int),
            None => radix_digit(c, radix as int).is_none(),
        },
{
    let code: u32 = c as u32;
    let value: u32 = if '0' <= c && c <= '9' {
        code - 0x30
    } else if 'a' <= c && c <= 'z' {
        code - 0x61 + 10
    } else if 'A' <= c && c <= 'Z' {
        code - 0x41 + 10
    } else {
        return None;
    };
    if value < radix {
        Some(value)
    } else {
        None
    }
}

/// Reads the literal that starts at `start` as an unsigned 32-bit number
/// in the given radix.
#[verifier::loop_isolation(false)]
fn parse_digits(chars: &Vec<char>, start: usize, radix: u32) -> (value: Option<u32>)
    requires
        start <= chars.len(),
        2 <= radix <= 36,
    ensures
        value == parse_unsigned(chars@.skip(start as int), radix as int),
{
    let ghost literal = chars@.skip(start as int);
    let mut first: usize = start;
    if first < chars.len() && chars[first] == '+' {
        first = first + 1;
    }
    let ghost digits = chars@.skip(first as int);
    proof {
        if first > start {
            assert(literal[0] == '+');
            assert(literal.skip(1) =~= digits);
        } else if literal.len() > 0 {
            assert(literal[0] == chars[start as int]);
        }
    }
    if first == chars.len() {
        return None;
    }
    let mut total: u64 = 0;
    let mut i: usize = first;
    proof {
        assert(digits.take(0) =~= Seq::<char>::empty());
    }
    while i < chars.len()
        invariant
            first <= i <= chars.len(),
            2 <= radix <= 36,
            digits == chars@.skip(first as int),
            all_digits(digits.take(i - first), radix as int),
            total == digits_value(digits.take(i - first), radix as int),
            total <= u32::MAX,
        decreases chars.len() - i,
    {
        let ghost seen = digits.take(i - first);
        let ghost next = digits.take(i - first + 1);
        proof {
            assert(next.drop_last() =~= seen);
            assert(next.last() == chars[i as int]);
        }
        match digit_of(chars[i], radix) {
            None => {
                proof {
                    assert(digits[i - first] == chars[i as int]);
                }
                return None;
            },
            Some(d) => {
                assert(total * radix <= 0xffff_ffff * 36) by (nonlinear_arith)
                    requires
                        0 <= total <= 0xffff_ffff,
                        0 <= radix <= 36,
                ;
                total = total * (radix as u64) + (d as u64);
                proof {
                    assert forall|k: int| 0 <= k < next.len() implies (#[trigger] radix_digit(
                        next[k],
                        radix as int,
                    )).is_some() by {
                        if k < seen.len() {
                            assert(next[k] == seen[k]);
                        }
                    }
                }
                if total > u32::MAX as u64 {
                    proof {
                        if all_digits(digits, radix as int) {
                            lemma_value_grows(digits, radix as int, i - first + 1);
                        }
                    }
                    return None;
                }
            },
        }
        i = i + 1;
    }
    proof {
        assert(digits.take(digits.len() as int) =~= digits);
    }
    Some(total as u32)
}

/// Reads one offset literal: hexadecimal behind `0x` or `0X`, decimal
/// otherwise. `None` where the literal writes no unsigned 32-bit number.
pub fn parse_offset(s: &str) -> (offset: Option<u32>)
    ensures
        offset == parse_offset_spec(s@),
{
    let chars = chars_of(s);
    if chars.len() >= 2 && chars[0] == '0' && (chars[1] == 'x' || chars[1] == 'X') {
        parse_digits(&chars, 2, 16)
    } else {
        assert(chars@.skip(0) =~= chars@);
        parse_digits(&chars, 0, 10)
    }
}

/// Why a list of query literals gives no offsets.
#[derive(Debug, Clone, Copy, PartialEq, Eq)]
pub enum QueryError {
    /// The list is empty.
    NoOffsets,
    /// The literal at this position writes no offset, and every literal
    /// before it writes one.
    InvalidOffset { index: usize },
}

/// Reads a list of offset literals, which must not be empty, into the
/// offsets they write, in order.
pub fn parse_offsets(literals: &Vec<String>) -> (result: Result<Vec<u32>, QueryError>)
    ensures
        match result {
            Ok(offsets) => {
                &&& literals.len() > 0
                &&& offsets.len() == literals.len()
                &&& forall|i: int|
                    0 <= i < literals.len() ==> parse_offset_spec(literals[i]@) == Some(
                        #[trigger] offsets[i],
                    )
            },
            Err(QueryError::NoOffsets) => literals.len() == 0,
            Err(QueryError::InvalidOffset { index }) => {
                &&& index < literals.len()
                &&& parse_offset_spec(literals[index as int]@).is_none()
                &&& forall|i: int|
                    0 <= i < index ==> (#[trigger] parse_offset_spec(literals[i]@)).is_some()
            },
        },
{
    if literals.len() == 0 {
        return Err(QueryError::NoOffsets);
    }
    let mut offsets: Vec<u32> = Vec::new();
    let mut i: usize = 0;
    while i < literals.len()
        invariant
            i <= literals.len(),
            offsets.len() == i,
            forall|k: int|
                0 <= k < i ==> parse_offset_spec(literals[k]@) == Some(#[trigger] offsets[k]),
        decreases literals.len() - i,
    {
        match parse_offset(literals[i].as_str()) {
            Some(offset) => {
                offsets.push(offset);
            },
            None => {
                proof {
                    assert forall|k: int| 0 <= k < i implies (#[trigger] parse_offset_spec(
                        literals[k]@,
                    )).is_some() by {
                        assert(parse_offset_spec(literals[k]@) == Some(offsets[k]));
                    }
                }
                return Err(QueryError::InvalidOffset { index: i });
            },
        }
        i = i + 1;
    }
    Ok(offsets)
}

/// A run of digits writes a number that is not negative.
proof fn lemma_value_nonnegative(s: Seq<char>, radix: int)
    requires
        radix >= 1,
        all_digits(s, radix),
    ensures
        digits_value(s, radix) >= 0,
    decreases s.len(),
{
    if s.len() > 0 {
        let shorter = s.drop_last();
        assert forall|i: int| 0 <= i < shorter.len() implies (#[trigger] radix_digit(
            shorter[i],
            radix,
        )).is_some() by {
            assert(shorter[i] == s[i]);
        }
        lemma_value_nonnegative(shorter, radix);
        assert(radix_digit(s[s.len() - 1], radix).is_some());
        assert(digits_value(shorter, radix) * radix >= 0) by (nonlinear_arith)
            requires
                digits_value(shorter, radix) >= 0,
                radix >= 1,
        ;
    }
}

/// A run of digits writes a number no smaller than any of its beginnings
/// writes.
proof fn lemma_value_grows(s: Seq<char>, radix: int, k: int)
    requires
        radix >= 1,
        all_digits(s, radix),
        0 <= k <= s.len(),
    ensures
        digits_value(s.take(k), radix) <= digits_value(s, radix),
    decreases s.len(),
{
    if k == s.len() {
        assert(s.take(k) =~= s);
    } else {
        let shorter = s.drop_last();
        assert forall|i: int| 0 <= i < shorter.len() implies (#[trigger] radix_digit(
            shorter[i],
            radix,
        )).is_some() by {
            assert(shorter[i] == s[i]);
        }
        lemma_value_grows(shorter, radix, k);
        lemma_value_nonnegative(shorter, radix);
        assert(shorter.take(k) =~= s.take(k));
        assert(radix_digit(s[s.len() - 1], radix).is_some());
        assert(digits_value(shorter, radix) * radix >= digits_value(shorter, radix))
            by (nonlinear_arith)
            requires
                digits_value(shorter, radix) >= 0,
                radix >= 1,
        ;
    }
}

} // verus!
