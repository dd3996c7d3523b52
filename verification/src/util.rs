use vstd::prelude::*;

use crate::error::ExtractError;

verus! {

/// A hexadecimal digit: `0`-`9`, `a`-`f` or `A`-`F`.
pub open spec fn is_hex_digit(c: char) -> bool {
    ('0' as u32) <= (c as u32) <= ('9' as u32) || ('a' as u32) <= (c as u32) <= ('f' as u32)
        || ('A' as u32) <= (c as u32) <= ('F' as u32)
}

/// Numeric value of a hexadecimal digit; 0 for any other character.
pub open spec fn hex_digit_value(c: char) -> int {
    if ('0' as u32) <= (c as u32) <= ('9' as u32) {
        (c as u32) - ('0' as u32)
    } else if ('a' as u32) <= (c as u32) <= ('f' as u32) {
        (c as u32) - ('a' as u32) + 10
    } else if ('A' as u32) <= (c as u32) <= ('F' as u32) {
        (c as u32) - ('A' as u32) + 10
    } else {
        0
    }
}

/// The integer denoted by a string of hexadecimal digits, most significant
/// digit first. Characters that are not hexadecimal digits count as 0.
pub open spec fn hex_chars_value(s: Seq<char>) -> int
    decreases s.len(),
{
    if s.len() == 0 {
        0
    } else {
        hex_chars_value(s.drop_last()) * 16 + hex_digit_value(s.last())
    }
}

pub open spec fn all_hex_digits(s: Seq<char>) -> bool {
    forall|i: int| 0 <= i < s.len() ==> is_hex_digit(s[i])
}

/// A leading `0x` or `0X` marker is ignored when parsing an address.
pub open spec fn strip_hex_prefix(s: Seq<char>) -> Seq<char> {
    if s.len() >= 2 && s[0] == '0' && (s[1] == 'x' || s[1] == 'X') {
        s.subrange(2, s.len() as int)
    } else {
        s
    }
}

/// A string parses as a 32-bit address: after dropping an optional `0x`/`0X`
/// marker, at least one character remains, every character is a hexadecimal
/// digit, and the denoted value fits in 32 bits.
pub open spec fn valid_hex_u32(s: Seq<char>) -> bool {
    let d = strip_hex_prefix(s);
    d.len() > 0 && all_hex_digits(d) && hex_chars_value(d) <= u32::MAX
}

/// The denoted value is never negative.
pub proof fn lemma_hex_value_nonneg(s: Seq<char>)
    ensures
        hex_chars_value(s) >= 0,
    decreases s.len(),
{
    if s.len() > 0 {
        lemma_hex_value_nonneg(s.drop_last());
    }
}

/// Extending a digit string on the right never decreases its value.
pub proof fn lemma_hex_value_prefix_le(s: Seq<char>, n: int)
    requires
        0 <= n <= s.len(),
    ensures
        hex_chars_value(s.take(n)) <= hex_chars_value(s),
    decreases s.len() - n,
{
    if n == s.len() {
        assert(s.take(n) =~= s);
    } else {
        lemma_hex_value_prefix_le(s, n + 1);
        let t = s.take(n + 1);
        assert(t.drop_last() =~= s.take(n));
        lemma_hex_value_nonneg(s.take(n));
        assert(hex_chars_value(t) == hex_chars_value(s.take(n)) * 16 + hex_digit_value(t.last()));
        assert(hex_digit_value(t.last()) >= 0);
        assert(hex_chars_value(s.take(n)) * 16 >= hex_chars_value(s.take(n)));
    }
}

/// Classifies one character as a hexadecimal digit and gives its value.
fn hex_digit(c: char) -> (r: Option<u32>)
    ensures
        r is Some <==> is_hex_digit(c),
        r is Some ==> r->0 == hex_digit_value(c),
{
    let u = c as u32;
    if ('0' as u32) <= u && u <= ('9' as u32) {
        Some(u - ('0' as u32))
    } else if ('a' as u32) <= u && u <= ('f' as u32) {
        Some(u - ('a' as u32) + 10)
    } else if ('A' as u32) <= u && u <= ('F' as u32) {
        Some(u - ('A' as u32) + 10)
    } else {
        None
    }
}

/// Parses a 32-bit address written in hexadecimal, with an optional leading
/// `0x` or `0X` marker. Rejects anything else: an empty digit string, a sign,
/// a non-digit character, or a value that does not fit in 32 bits.
pub fn parse_u32_hex(s: &str) -> (r: Result<u32, ExtractError>)
    ensures
        r is Ok <==> valid_hex_u32(s@),
        r is Ok ==> r->Ok_0 == hex_chars_value(strip_hex_prefix(s@)),
        r is Err ==> r->Err_0 == ExtractError::MalformedHex,
{
    let len = s.unicode_len();
    let mut start: usize = 0;
    if len >= 2 && s.get_char(0) == '0' {
        let c1 = s.get_char(1);
        if c1 == 'x' || c1 == 'X' {
            start = 2;
        }
    }
    let ghost digits = strip_hex_prefix(s@);
    proof {
        assert(digits =~= s@.subrange(start as int, len as int));
    }
    if start == len {
        return Err(ExtractError::MalformedHex);
    }
    let mut val: u64 = 0;
    let mut j: usize = start;
    while j < len
        invariant
            start <= j <= len,
            len == s@.len(),
            digits == strip_hex_prefix(s@),
            digits == s@.subrange(start as int, len as int),
            all_hex_digits(digits.take(j - start)),
            val == hex_chars_value(digits.take(j - start)),
            val <= u32::MAX,
        decreases len - j,
    {
        let c = s.get_char(j);
        match hex_digit(c) {
            None => {
                proof {
                    assert(digits[j - start] == c);
                    assert(!all_hex_digits(digits));
                }
                return Err(ExtractError::MalformedHex);
            },
            Some(d) => {
                proof {
                    assert(digits.take(j - start + 1).drop_last() =~= digits.take(j - start));
                    assert(digits.take(j - start + 1).last() == c);
                }
                val = val * 16 + (d as u64);
                if val > (u32::MAX as u64) {
                    proof {
                        assert(val == hex_chars_value(digits.take(j - start + 1)));
                        lemma_hex_value_prefix_le(digits, j - start + 1);
                        assert(hex_chars_value(digits) > u32::MAX);
                    }
                    return Err(ExtractError::MalformedHex);
                }
            },
        }
        j = j + 1;
    }
    proof {
        assert(digits.take(len - start) =~= digits);
    }
    Ok(val as u32)
}

} // verus!
