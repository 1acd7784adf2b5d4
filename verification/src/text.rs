//! Decimal numbers in ASCII text: the grammar that addresses, durations and
//! counters are written in, and the routines that read and write it.

use vstd::prelude::*;
use vstd::string::*;

verus! {

/// The characters that a byte string stands for, byte by byte.
pub open spec fn chars_of(bytes: Seq<u8>) -> Seq<char> {
    Seq::new(bytes.len(), |i: int| bytes[i] as char)
}

/// `c` is one of `0` to `9`.
pub open spec fn is_digit(c: char) -> bool {
    '0' <= c <= '9'
}

/// The number that the digit `c` stands for.
pub open spec fn digit_value(c: char) -> nat
    recommends
        is_digit(c),
{
    (c as nat - '0' as nat) as nat
}

/// Every character of `s` is a digit.
pub open spec fn all_digits(s: Seq<char>) -> bool {
    forall|i: int| 0 <= i < s.len() ==> is_digit(#[trigger] s[i])
}

/// The number that a string of digits stands for, most significant digit first.
pub open spec fn decimal_value(s: Seq<char>) -> nat
    decreases s.len(),
{
    if s.len() == 0 {
        0
    } else {
        decimal_value(s.drop_last()) * 10 + digit_value(s.last())
    }
}

/// The digit that stands for `d`.
pub open spec fn digit_char(d: nat) -> char
    recommends
        d < 10,
{
    (d + '0' as nat) as char
}

/// The shortest string of digits that stands for `n`.
pub open spec fn decimal_digits(n: nat) -> Seq<char>
    decreases n,
{
    if n < 10 {
        seq![digit_char(n)]
    } else {
        decimal_digits(n / 10).push(digit_char(n % 10))
    }
}

/// How many digits `s` starts with.
pub open spec fn digit_run(s: Seq<char>) -> nat
    decreases s.len(),
{
    if s.len() > 0 && is_digit(s[0]) {
        1 + digit_run(s.drop_first())
    } else {
        0
    }
}

/// A number at the start of `s`, written without a leading zero, in at most
/// `max_digits` digits and no greater than `max`: its value and its length.
pub open spec fn leading_number(s: Seq<char>, max_digits: nat, max: nat) -> Option<(nat, nat)> {
    let n = digit_run(s);
    let v = decimal_value(s.take(n as int));
    if 1 <= n <= max_digits && (n == 1 || s[0] != '0') && v <= max {
        Some((v, n))
    } else {
        None
    }
}

/// An ASCII string has one byte for each character.
pub proof fn lemma_ascii_chars(s: &str)
    requires
        is_ascii(s),
    ensures
        chars_of(s.spec_bytes()) == s@,
{
    is_ascii_spec_bytes(s);
    let bytes = s.spec_bytes();
    assert(bytes.len() == s@.len());
    assert forall|i: int| 0 <= i < s@.len() implies chars_of(bytes)[i] == s@[i] by {
        let c = s@[i];
        assert('\0' <= c <= '\u{7f}');
        assert(bytes[i] == c as u8);
        assert((c as u8) as char == c);
    }
    assert(chars_of(bytes) =~= s@);
}

/// The value of a string of digits grows with each digit that is added.
pub proof fn lemma_decimal_value_prefix(s: Seq<char>, k: int)
    requires
        0 <= k <= s.len(),
    ensures
        decimal_value(s.take(k)) <= decimal_value(s),
    decreases s.len() - k,
{
    if k == s.len() {
        assert(s.take(k) =~= s);
    } else {
        lemma_decimal_value_prefix(s.drop_last(), k);
        assert(s.drop_last().take(k) =~= s.take(k));
    }
}

/// The value of the first `k + 1` characters, from that of the first `k`.
pub proof fn lemma_decimal_value_step(s: Seq<char>, k: int)
    requires
        0 <= k < s.len(),
    ensures
        decimal_value(s.take(k + 1)) == decimal_value(s.take(k)) * 10 + digit_value(s[k]),
{
    let t = s.take(k + 1);
    assert(t.drop_last() =~= s.take(k));
    assert(t.last() == s[k]);
}

/// The digit run of `s` holds digits only, ends at the first character that is
/// none, and is the only length of which both are true.
pub proof fn lemma_digit_run(s: Seq<char>, n: int)
    requires
        0 <= n <= s.len(),
        all_digits(s.take(n)),
        n < s.len() ==> !is_digit(s[n]),
    ensures
        digit_run(s) == n,
    decreases s.len(),
{
    if n == 0 {
    } else {
        assert(s.take(n)[0] == s[0]);
        assert(is_digit(s[0]));
        let t = s.drop_first();
        assert forall|i: int| 0 <= i < n - 1 implies is_digit(#[trigger] t.take(n - 1)[i]) by {
            assert(t.take(n - 1)[i] == s.take(n)[i + 1]);
        }
        lemma_digit_run(t, n - 1);
    }
}

/// The digit run of `s` is a prefix of digits that no digit follows.
pub proof fn lemma_digit_run_bounds(s: Seq<char>)
    ensures
        digit_run(s) <= s.len(),
        all_digits(s.take(digit_run(s) as int)),
        digit_run(s) < s.len() ==> !is_digit(s[digit_run(s) as int]),
    decreases s.len(),
{
    if s.len() > 0 && is_digit(s[0]) {
        let t = s.drop_first();
        lemma_digit_run_bounds(t);
        let n = digit_run(s) as int;
        assert forall|i: int| 0 <= i < n implies is_digit(#[trigger] s.take(n)[i]) by {
            if i > 0 {
                assert(s.take(n)[i] == t.take(n - 1)[i - 1]);
            }
        }
    }
}

/// The number that a run of digits in `bytes` stands for, from `start` up to
/// `end`; `None` where these are no positions of a run, where the run is
/// empty or holds another character, and where it stands for more than a
/// `u64` holds.
pub fn parse_digits(bytes: &[u8], start: usize, end: usize) -> (r: Option<u64>)
    ensures
        r is Some <==> {
            let s = chars_of(bytes@).subrange(start as int, end as int);
            start < end <= bytes@.len() && all_digits(s) && decimal_value(s) <= u64::MAX
        },
        r matches Some(v) ==> v == decimal_value(
            chars_of(bytes@).subrange(start as int, end as int),
        ),
{
    if start >= end || end > bytes.len() {
        return None;
    }
    let ghost s = chars_of(bytes@).subrange(start as int, end as int);
    let mut acc: u64 = 0;
    let mut i: usize = start;
    while i < end
        invariant
            start <= i <= end <= bytes@.len(),
            s == chars_of(bytes@).subrange(start as int, end as int),
            all_digits(s.take(i - start)),
            acc == decimal_value(s.take(i - start)),
        decreases end - i,
    {
        let b = bytes[i];
        let ghost k = (i - start) as int;
        assert(s[k] == b as char);
        if b < 48 || b > 57 {
            assert(!is_digit(s[k]));
            return None;
        }
        assert(is_digit(s[k]));
        let d: u64 = (b - 48) as u64;
        assert(d == digit_value(s[k]));
        proof {
            lemma_decimal_value_step(s, k);
            lemma_decimal_value_prefix(s, k + 1);
        }
        if acc > (u64::MAX - d) / 10 {
            return None;
        }
        acc = acc * 10 + d;
        i = i + 1;
        assert forall|j: int| 0 <= j < s.take(k + 1).len() implies is_digit(
            #[trigger] s.take(k + 1)[j],
        ) by {
            if j < k {
                assert(s.take(k + 1)[j] == s.take(k)[j]);
            }
        }
    }
    assert(s.take(i - start) =~= s);
    Some(acc)
}

/// The one-character string for the digit `d`.
fn digit_str(d: u8) -> (r: &'static str)
    requires
        d < 10,
    ensures
        r@ == seq![digit_char(d as nat)],
{
    proof {
        reveal_strlit("0");
        reveal_strlit("1");
        reveal_strlit("2");
        reveal_strlit("3");
        reveal_strlit("4");
        reveal_strlit("5");
        reveal_strlit("6");
        reveal_strlit("7");
        reveal_strlit("8");
        reveal_strlit("9");
    }
    let r = if d == 0 {
        "0"
    } else if d == 1 {
        "1"
    } else if d == 2 {
        "2"
    } else if d == 3 {
        "3"
    } else if d == 4 {
        "4"
    } else if d == 5 {
        "5"
    } else if d == 6 {
        "6"
    } else if d == 7 {
        "7"
    } else if d == 8 {
        "8"
    } else {
        "9"
    };
    assert(r@ =~= seq![digit_char(d as nat)]);
    r
}

/// Appends `n` in decimal to `out`.
pub fn append_decimal(out: &mut String, n: u64)
    ensures
        final(out)@ == old(out)@ + decimal_digits(n as nat),
    decreases n,
{
    if n >= 10 {
        append_decimal(out, n / 10);
    }
    let d: u8 = (n % 10) as u8;
    out.append(digit_str(d));
    proof {
        if n >= 10 {
            assert(final(out)@ =~= old(out)@ + decimal_digits(n as nat));
        } else {
            assert(final(out)@ =~= old(out)@ + decimal_digits(n as nat));
        }
    }
}

/// A number below a thousand is written in at most three digits, one below a
/// hundred in at most two, and one below ten in one.
pub proof fn lemma_decimal_digits_len(n: nat)
    requires
        n < 1000,
    ensures
        decimal_digits(n).len() <= 3,
        n < 100 ==> decimal_digits(n).len() <= 2,
        n < 10 ==> decimal_digits(n).len() == 1,
{
    reveal_with_fuel(decimal_digits, 3);
}

/// A number that was written is read back where it stands at the start of a
/// string and no digit follows it.
pub proof fn lemma_leading_number_written(v: nat, rest: Seq<char>, max_digits: nat, max: nat)
    requires
        v <= max,
        decimal_digits(v).len() <= max_digits,
        rest.len() > 0 ==> !is_digit(rest[0]),
    ensures
        leading_number(decimal_digits(v) + rest, max_digits, max) == Some(
            (v, decimal_digits(v).len()),
        ),
{
    let d = decimal_digits(v);
    let s = d + rest;
    let n = d.len() as int;
    lemma_decimal_digits_value(v);
    assert(s.take(n) =~= d);
    if n < s.len() {
        assert(s[n] == rest[0]);
    }
    lemma_digit_run(s, n);
    assert(s[0] == d[0]);
    if v == 0 {
        assert(n == 1);
    }
}

/// The digits written for a number are digits, and stand for that number.
pub proof fn lemma_decimal_digits_value(n: nat)
    ensures
        decimal_digits(n).len() >= 1,
        all_digits(decimal_digits(n)),
        decimal_value(decimal_digits(n)) == n,
        n > 0 ==> decimal_digits(n)[0] != '0',
    decreases n,
{
    if n < 10 {
        let s = decimal_digits(n);
        assert(s.drop_last() =~= Seq::<char>::empty());
        assert(decimal_value(s.drop_last()) == 0);
    } else {
        lemma_decimal_digits_value(n / 10);
        let p = decimal_digits(n / 10);
        let s = decimal_digits(n);
        assert(s.drop_last() =~= p);
        assert(s.last() == digit_char(n % 10));
        assert(s[0] == p[0]);
    }
}

} // verus!
