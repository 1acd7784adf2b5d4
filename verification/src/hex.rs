//! Hexadecimal numbers in text: the groups that an IPv6 address is written
//! in, and the routines that read and write them.

use vstd::prelude::*;
use vstd::string::*;

verus! {

/// `c` is a hexadecimal digit, in either case.
pub open spec fn is_hex(c: char) -> bool {
    '0' <= c <= '9' || 'a' <= c <= 'f' || 'A' <= c <= 'F'
}

/// The number that the hexadecimal digit `c` stands for.
pub open spec fn hex_digit_value(c: char) -> nat
    recommends
        is_hex(c),
{
    if '0' <= c <= '9' {
        (c as nat - '0' as nat) as nat
    } else if 'a' <= c <= 'f' {
        (c as nat - 'a' as nat + 10) as nat
    } else {
        (c as nat - 'A' as nat + 10) as nat
    }
}

/// Every character of `s` is a hexadecimal digit.
pub open spec fn all_hex(s: Seq<char>) -> bool {
    forall|i: int| 0 <= i < s.len() ==> is_hex(#[trigger] s[i])
}

/// The number that a string of hexadecimal digits stands for, most
/// significant digit first.
pub open spec fn hex_value(s: Seq<char>) -> nat
    decreases s.len(),
{
    if s.len() == 0 {
        0
    } else {
        hex_value(s.drop_last()) * 16 + hex_digit_value(s.last())
    }
}

/// The hexadecimal digit that stands for `d`, in lower case.
pub open spec fn hex_char(d: nat) -> char
    recommends
        d < 16,
{
    if d < 10 {
        (d + '0' as nat) as char
    } else {
        (d - 10 + 'a' as nat) as char
    }
}

/// The shortest string of hexadecimal digits that stands for `n`.
pub open spec fn hex_digits(n: nat) -> Seq<char>
    decreases n,
{
    if n < 16 {
        seq![hex_char(n)]
    } else {
        hex_digits(n / 16).push(hex_char(n % 16))
    }
}

/// How many hexadecimal digits `s` starts with.
pub open spec fn hex_run(s: Seq<char>) -> nat
    decreases s.len(),
{
    if s.len() > 0 && is_hex(s[0]) {
        1 + hex_run(s.drop_first())
    } else {
        0
    }
}

/// A group at the start of `s`, of one to four hexadecimal digits: its value
/// and its length.
pub open spec fn leading_group(s: Seq<char>) -> Option<(nat, nat)> {
    let n = hex_run(s);
    if 1 <= n <= 4 {
        Some((hex_value(s.take(n as int)), n))
    } else {
        None
    }
}

/// The number that the character at `i` stands for, where it is a
/// hexadecimal digit.
pub open spec fn hex_at(s: Seq<char>, i: int) -> Option<nat> {
    if 0 <= i < s.len() && is_hex(s[i]) {
        Some(hex_digit_value(s[i]))
    } else {
        None
    }
}

/// What a number of `k` hexadecimal digits stays below, for `k` up to 4.
pub open spec fn group_bound(k: nat) -> nat {
    if k == 0 {
        1
    } else if k == 1 {
        0x10
    } else if k == 2 {
        0x100
    } else if k == 3 {
        0x1000
    } else {
        0x1_0000
    }
}

/// The value of the first `k + 1` characters, from that of the first `k`.
pub proof fn lemma_hex_value_step(s: Seq<char>, k: int)
    requires
        0 <= k < s.len(),
    ensures
        hex_value(s.take(k + 1)) == hex_value(s.take(k)) * 16 + hex_digit_value(s[k]),
{
    let t = s.take(k + 1);
    assert(t.drop_last() =~= s.take(k));
    assert(t.last() == s[k]);
}

/// The hexadecimal run of `s` holds hexadecimal digits only, ends at the first
/// character that is none, and is the only length of which both are true.
pub proof fn lemma_hex_run(s: Seq<char>, n: int)
    requires
        0 <= n <= s.len(),
        all_hex(s.take(n)),
        n < s.len() ==> !is_hex(s[n]),
    ensures
        hex_run(s) == n,
    decreases s.len(),
{
    if n == 0 {
    } else {
        assert(s.take(n)[0] == s[0]);
        assert(is_hex(s[0]));
        let t = s.drop_first();
        assert forall|i: int| 0 <= i < n - 1 implies is_hex(#[trigger] t.take(n - 1)[i]) by {
            assert(t.take(n - 1)[i] == s.take(n)[i + 1]);
        }
        lemma_hex_run(t, n - 1);
    }
}

/// The number that a character stands for as a hexadecimal digit.
fn hex_of(c: char) -> (r: Option<u32>)
    ensures
        r is Some <==> is_hex(c),
        r matches Some(d) ==> d == hex_digit_value(c) && d < 16,
{
    let n: u32 = c as u32;
    if 48 <= n && n <= 57 {
        Some(n - 48)
    } else if 97 <= n && n <= 102 {
        Some(n - 87)
    } else if 65 <= n && n <= 70 {
        Some(n - 55)
    } else {
        None
    }
}

/// Reads a group at `pos`: its value and the position after its last digit.
pub fn read_group(text: &str, pos: usize) -> (r: Option<(u16, usize)>)
    requires
        pos <= text@.len(),
    ensures
        match r {
            Some((v, next)) => {
                &&& leading_group(text@.skip(pos as int)) == Some((v as nat, (next - pos) as nat))
                &&& pos < next <= text@.len()
            },
            None => leading_group(text@.skip(pos as int)) is None,
        },
{
    let len = text.unicode_len();
    let ghost s = text@.skip(pos as int);
    let mut end: usize = pos;
    let mut acc: u32 = 0;
    let mut digit: Option<u32> = if end < len {
        hex_of(text.get_char(end))
    } else {
        None
    };
    while digit.is_some()
        invariant
            pos <= end <= len,
            len == text@.len(),
            s == text@.skip(pos as int),
            all_hex(s.take(end - pos)),
            end - pos <= 4 ==> acc == hex_value(s.take(end - pos)) && acc < group_bound(
                (end - pos) as nat,
            ),
            acc < 0x1_0000,
            digit is Some ==> end < len && is_hex(s[end - pos]) && digit.unwrap()
                == hex_digit_value(s[end - pos]),
            digit is None ==> end == len || !is_hex(s[end - pos]),
        decreases len - end,
    {
        let ghost k = (end - pos) as int;
        let d = digit.unwrap();
        proof {
            lemma_hex_value_step(s, k);
            assert forall|j: int| 0 <= j < k + 1 implies is_hex(#[trigger] s.take(k + 1)[j]) by {
                if j < k {
                    assert(s.take(k + 1)[j] == s.take(k)[j]);
                }
            }
        }
        if end - pos < 4 {
            acc = acc * 16 + d;
        }
        end = end + 1;
        digit = if end < len {
            hex_of(text.get_char(end))
        } else {
            None
        };
    }
    let n = end - pos;
    proof {
        lemma_hex_run(s, n as int);
    }
    if n == 0 || n > 4 {
        None
    } else {
        Some((acc as u16, end))
    }
}

/// The one-character string for the hexadecimal digit `d`.
fn hex_str(d: u8) -> (r: &'static str)
    requires
        d < 16,
    ensures
        r@ == seq![hex_char(d as nat)],
{
    proof {
        reveal_strlit("0");
        reveal_strlit("1");
        reveal_strlit("2");
        reveal_strlit("3");
        reveal_strlit("4");
        reveal_strlit("5");
        reveal_strlit("6");
        reveal_strlit("7");
        reveal_strlit("8");
        reveal_strlit("9");
        reveal_strlit("a");
        reveal_strlit("b");
        reveal_strlit("c");
        reveal_strlit("d");
        reveal_strlit("e");
        reveal_strlit("f");
    }
    let r = if d == 0 {
        "0"
    } else if d == 1 {
        "1"
    } else if d == 2 {
        "2"
    } else if d == 3 {
        "3"
    } else if d == 4 {
        "4"
    } else if d == 5 {
        "5"
    } else if d == 6 {
        "6"
    } else if d == 7 {
        "7"
    } else if d == 8 {
        "8"
    } else if d == 9 {
        "9"
    } else if d == 10 {
        "a"
    } else if d == 11 {
        "b"
    } else if d == 12 {
        "c"
    } else if d == 13 {
        "d"
    } else if d == 14 {
        "e"
    } else {
        "f"
    };
    assert(r@ =~= seq![hex_char(d as nat)]);
    r
}

/// Appends `n` in hexadecimal to `out`.
pub fn append_hex(out: &mut String, n: u16)
    ensures
        final(out)@ == old(out)@ + hex_digits(n as nat),
    decreases n,
{
    if n >= 16 {
        append_hex(out, n / 16);
    }
    let d: u8 = (n % 16) as u8;
    out.append(hex_str(d));
    proof {
        assert(final(out)@ =~= old(out)@ + hex_digits(n as nat));
    }
}

/// The digits written for a number are hexadecimal digits, and stand for
/// that number.
pub proof fn lemma_hex_digits_value(n: nat)
    ensures
        hex_digits(n).len() >= 1,
        all_hex(hex_digits(n)),
        hex_value(hex_digits(n)) == n,
    decreases n,
{
    if n < 16 {
        let s = hex_digits(n);
        assert(s.drop_last() =~= Seq::<char>::empty());
        assert(hex_value(s.drop_last()) == 0);
    } else {
        lemma_hex_digits_value(n / 16);
        let p = hex_digits(n / 16);
        let s = hex_digits(n);
        assert(s.drop_last() =~= p);
        assert(s.last() == hex_char(n % 16));
        assert forall|i: int| 0 <= i < s.len() implies is_hex(#[trigger] s[i]) by {
            if i < p.len() {
                assert(s[i] == p[i]);
            }
        }
    }
}

/// A group that was written is read back where it stands at the start of a
/// string and no hexadecimal digit follows it.
pub proof fn lemma_leading_group_written(v: nat, rest: Seq<char>)
    requires
        v < 0x1_0000,
        rest.len() > 0 ==> !is_hex(rest[0]),
    ensures
        1 <= hex_digits(v).len() <= 4,
        leading_group(hex_digits(v) + rest) == Some((v, hex_digits(v).len())),
{
    let d = hex_digits(v);
    let s = d + rest;
    let n = d.len() as int;
    lemma_hex_digits_value(v);
    assert(n <= 4) by {
        reveal_with_fuel(hex_digits, 5);
    }
    assert(s.take(n) =~= d);
    if n < s.len() {
        assert(s[n] == rest[0]);
    }
    lemma_hex_run(s, n);
}

} // verus!
