//! Durations written as a count and a unit: `2h`, `30m`, `45s`.

use crate::error::ValidationError;
use crate::text::{all_digits, chars_of, decimal_value, is_digit, lemma_ascii_chars, parse_digits};
use vstd::prelude::*;
use vstd::string::*;

verus! {

/// Seconds in one unit of a duration string, or `None` where `unit` is no unit.
pub open spec fn unit_seconds(unit: char) -> Option<nat> {
    if unit == 'h' {
        Some(3600)
    } else if unit == 'm' {
        Some(60)
    } else if unit == 's' {
        Some(1)
    } else {
        None
    }
}

/// The count of a duration string: the digits before the unit, which one `+`
/// may precede.
pub open spec fn count_digits(body: Seq<char>) -> Seq<char> {
    if body.len() > 0 && body[0] == '+' {
        body.skip(1)
    } else {
        body
    }
}

/// What a duration string means, in seconds: a decimal count and then one of
/// the units `h`, `m` and `s`. `None` where the unit is missing or unknown,
/// where the count is empty or holds anything but digits, and where the
/// seconds do not fit in a `u64`.
pub open spec fn spec_parse_duration(s: Seq<char>) -> Option<u64> {
    if s.len() == 0 {
        None
    } else {
        let digits = count_digits(s.drop_last());
        match unit_seconds(s.last()) {
            None => None,
            Some(f) => if digits.len() > 0 && all_digits(digits) && decimal_value(digits) * f
                <= u64::MAX {
                Some((decimal_value(digits) * f) as u64)
            } else {
                None
            },
        }
    }
}

/// The number of seconds in one unit given as an ASCII byte.
fn unit_factor(unit: u8) -> (r: Option<u64>)
    ensures
        match r {
            Some(f) => unit_seconds(unit as char) == Some(f as nat),
            None => unit_seconds(unit as char) is None,
        },
{
    if unit == 104 {
        Some(3600)
    } else if unit == 109 {
        Some(60)
    } else if unit == 115 {
        Some(1)
    } else {
        None
    }
}

/// A string that is a duration holds ASCII characters only.
proof fn lemma_duration_ascii(s: Seq<char>)
    requires
        spec_parse_duration(s) is Some,
    ensures
        vstd::utf8::is_ascii_chars(s),
{
    let body = s.drop_last();
    let digits = count_digits(body);
    assert forall|i: int| 0 <= i < s.len() implies '\0' <= #[trigger] s[i] <= '\u{7f}' by {
        if i == s.len() - 1 {
            assert(s[i] == s.last());
        } else if body[0] == '+' {
            if i > 0 {
                assert(s[i] == digits[i - 1]);
                assert(is_digit(digits[i - 1]));
            }
        } else {
            assert(s[i] == digits[i]);
            assert(is_digit(digits[i]));
        }
    }
}

/// Reads a duration such as `2h`, `30m` or `45s` and gives it in seconds.
pub fn parse_duration(duration_str: &str) -> (r: Option<u64>)
    ensures
        r == spec_parse_duration(duration_str@),
{
    if !duration_str.is_ascii() {
        proof {
            if spec_parse_duration(duration_str@) is Some {
                lemma_duration_ascii(duration_str@);
            }
        }
        return None;
    }
    let bytes = duration_str.as_bytes();
    proof {
        lemma_ascii_chars(duration_str);
    }
    let ghost s = duration_str@;
    assert(chars_of(bytes@) == s);
    let n = bytes.len();
    if n == 0 {
        return None;
    }
    assert(s.last() == bytes@[n - 1] as char);
    let factor = match unit_factor(bytes[n - 1]) {
        Some(f) => f,
        None => {
            return None;
        },
    };
    let start: usize = if n > 1 && bytes[0] == 43 {
        1
    } else {
        0
    };
    let ghost body = s.drop_last();
    assert(body.len() > 0 ==> body[0] == bytes@[0] as char);
    assert(count_digits(body) =~= s.subrange(start as int, n - 1));
    match parse_digits(bytes, start, n - 1) {
        None => {
            assert(decimal_value(count_digits(body)) * factor >= decimal_value(count_digits(body)))
                by (nonlinear_arith)
                requires
                    factor >= 1,
            ;
            None
        },
        Some(count) => count.checked_mul(factor),
    }
}

/// Checks the duration of a request: the seconds it stands for, or the error
/// that refuses the request where the text is no duration.
pub fn validate_duration(text: &str) -> (r: Result<u64, ValidationError>)
    ensures
        r == (match spec_parse_duration(text@) {
            Some(seconds) => Ok::<u64, ValidationError>(seconds),
            None => Err::<u64, ValidationError>(ValidationError::InvalidDuration),
        }),
{
    match parse_duration(text) {
        Some(seconds) => Ok(seconds),
        None => Err(ValidationError::InvalidDuration),
    }
}

} // verus!
