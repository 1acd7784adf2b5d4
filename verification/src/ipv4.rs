//! IPv4 networks: an address of four octets and a prefix length, read from
//! the dotted notation and written in one normal form.

use crate::text::{
    all_digits, append_decimal, chars_of, decimal_digits, is_digit, leading_number,
    lemma_ascii_chars, lemma_decimal_digits_len, lemma_digit_run, lemma_digit_run_bounds,
    lemma_leading_number_written, parse_digits,
};
use vstd::prelude::*;
use vstd::string::*;

verus! {

/// An IPv4 network: the address of its first host and the number of leading
/// bits that its hosts share. A single address is a network of prefix 32.
#[derive(Clone, Copy, Debug, PartialEq, Eq, Structural)]
pub struct Ip4Net {
    pub addr: u32,
    pub prefix: u8,
}

/// The bits of an address that a prefix of `prefix` bits fixes.
pub open spec fn netmask(prefix: u8) -> u32 {
    if prefix == 0 {
        0u32
    } else {
        0xffff_ffffu32 << ((32 - prefix) as u32)
    }
}

/// An octet that follows a dot at `pos`: its value and the position after it.
pub open spec fn dot_octet(s: Seq<char>, pos: nat) -> Option<(nat, nat)> {
    if pos < s.len() && s[pos as int] == '.' {
        match leading_number(s.skip(pos + 1 as int), 3, 255) {
            Some((v, n)) => Some((v, pos + 1 + n)),
            None => None,
        }
    } else {
        None
    }
}

/// Four octets with dots between them at the start of `s`: the address they
/// spell and the position after the last octet.
pub open spec fn spec_parse_quad(s: Seq<char>) -> Option<(u32, nat)> {
    match leading_number(s, 3, 255) {
        None => None,
        Some((a, end_a)) => match dot_octet(s, end_a) {
            None => None,
            Some((b, end_b)) => match dot_octet(s, end_b) {
                None => None,
                Some((c, end_c)) => match dot_octet(s, end_c) {
                    None => None,
                    Some((d, end_d)) => Some(
                        ((a * 0x100_0000 + b * 0x1_0000 + c * 0x100 + d) as u32, end_d),
                    ),
                },
            },
        },
    }
}

/// What a string means as an address: `a.b.c.d`, or `a.b.c.d/p` with `p` from
/// 0 to 32. Each number is decimal without a leading zero, each octet at most
/// 255. The host bits of a network are cleared. `None` for any other string.
pub open spec fn spec_parse_v4(s: Seq<char>) -> Option<Ip4Net> {
    match spec_parse_quad(s) {
        None => None,
        Some((addr, end)) => if end == s.len() {
            Some(Ip4Net { addr, prefix: 32 })
        } else if s[end as int] == '/' {
            match leading_number(s.skip(end + 1 as int), 2, 32) {
                Some((p, n)) => if end + 1 + n == s.len() {
                    Some(Ip4Net { addr: addr & netmask(p as u8), prefix: p as u8 })
                } else {
                    None
                },
                None => None,
            }
        } else {
            None
        },
    }
}

/// The four octets of an address with dots between them.
pub open spec fn spec_quad_text(addr: u32) -> Seq<char> {
    decimal_digits((addr / 0x100_0000) as nat) + seq!['.'] + decimal_digits(
        (addr / 0x1_0000 % 0x100) as nat,
    ) + seq!['.'] + decimal_digits((addr / 0x100 % 0x100) as nat) + seq!['.'] + decimal_digits(
        (addr % 0x100) as nat,
    )
}

impl Ip4Net {
    /// The prefix is at most 32 bits long and no host bit is set.
    pub open spec fn wf(self) -> bool {
        self.prefix <= 32 && self.addr & netmask(self.prefix) == self.addr
    }

    /// How the network is written: `a.b.c.d` for a single address, `a.b.c.d/p`
    /// for a shorter prefix.
    pub open spec fn spec_text(self) -> Seq<char> {
        if self.prefix == 32 {
            spec_quad_text(self.addr)
        } else {
            spec_quad_text(self.addr) + seq!['/'] + decimal_digits(self.prefix as nat)
        }
    }

    /// The network of `prefix` bits that holds `addr`; `None` where `prefix`
    /// is more than 32.
    pub fn new(addr: u32, prefix: u8) -> (r: Option<Ip4Net>)
        ensures
            r == (if prefix <= 32 {
                Some(Ip4Net { addr: addr & netmask(prefix), prefix })
            } else {
                None::<Ip4Net>
            }),
            r matches Some(ip) ==> ip.wf(),
    {
        if prefix > 32 {
            None
        } else {
            let mask = mask_of(prefix);
            assert((addr & mask) & mask == addr & mask) by (bit_vector);
            Some(Ip4Net { addr: addr & mask, prefix })
        }
    }

    /// Reads `a.b.c.d` or `a.b.c.d/p`.
    pub fn parse(text: &str) -> (r: Option<Ip4Net>)
        ensures
            r == spec_parse_v4(text@),
            r matches Some(ip) ==> ip.wf(),
    {
        if !text.is_ascii() {
            proof {
                if spec_parse_v4(text@) is Some {
                    lemma_ipnet_ascii(text@);
                }
            }
            return None;
        }
        let bytes = text.as_bytes();
        proof {
            lemma_ascii_chars(text);
        }
        let ghost s = text@;
        let (addr, end) = match parse_quad(bytes) {
            Some(q) => q,
            None => {
                return None;
            },
        };
        if end == bytes.len() {
            assert(0xffff_ffffu32 << 0u32 == 0xffff_ffffu32) by (bit_vector);
            assert(addr & 0xffff_ffffu32 == addr) by (bit_vector);
            return Some(Ip4Net { addr, prefix: 32 });
        }
        if bytes[end] != 47 {
            return None;
        }
        assert(s[end as int] == '/');
        match read_number(bytes, end + 1, 2, 32) {
            None => None,
            Some((p, next)) => {
                if next == bytes.len() {
                    Ip4Net::new(addr, p as u8)
                } else {
                    None
                }
            },
        }
    }

    /// Writes the network as `parse` reads it.
    pub fn to_text(&self) -> (r: String)
        ensures
            r@ == self.spec_text(),
    {
        let mut out = String::new();
        append_decimal(&mut out, (self.addr / 0x100_0000) as u64);
        out.append(".");
        append_decimal(&mut out, (self.addr / 0x1_0000 % 0x100) as u64);
        out.append(".");
        append_decimal(&mut out, (self.addr / 0x100 % 0x100) as u64);
        out.append(".");
        append_decimal(&mut out, (self.addr % 0x100) as u64);
        proof {
            reveal_strlit(".");
            assert("."@ =~= seq!['.']);
            assert(out@ =~= spec_quad_text(self.addr));
        }
        if self.prefix != 32 {
            out.append("/");
            append_decimal(&mut out, self.prefix as u64);
            proof {
                reveal_strlit("/");
                assert("/"@ =~= seq!['/']);
                assert(out@ =~= self.spec_text());
            }
        }
        out
    }
}

/// The mask of a prefix.
fn mask_of(prefix: u8) -> (r: u32)
    requires
        prefix <= 32,
    ensures
        r == netmask(prefix),
{
    if prefix == 0 {
        0
    } else {
        0xffff_ffffu32 << ((32 - prefix) as u32)
    }
}

/// Reads a number without a leading zero at `pos`: its value and the position
/// after its last digit.
fn read_number(bytes: &[u8], pos: usize, max_digits: usize, max: u64) -> (r: Option<(u64, usize)>)
    requires
        pos <= bytes@.len(),
    ensures
        match r {
            Some((v, next)) => {
                &&& leading_number(chars_of(bytes@).skip(pos as int), max_digits as nat, max as nat)
                    == Some((v as nat, (next - pos) as nat))
                &&& pos < next <= bytes@.len()
                &&& v <= max
            },
            None => leading_number(chars_of(bytes@).skip(pos as int), max_digits as nat, max as nat)
                is None,
        },
{
    let ghost s = chars_of(bytes@).skip(pos as int);
    let mut end: usize = pos;
    while end < bytes.len() && 48 <= bytes[end] && bytes[end] <= 57
        invariant
            pos <= end <= bytes@.len(),
            s == chars_of(bytes@).skip(pos as int),
            all_digits(s.take(end - pos)),
        decreases bytes@.len() - end,
    {
        let ghost k = (end - pos) as int;
        assert(s[k] == bytes@[end as int] as char);
        assert forall|j: int| 0 <= j < k + 1 implies is_digit(#[trigger] s.take(k + 1)[j]) by {
            if j < k {
                assert(s.take(k + 1)[j] == s.take(k)[j]);
            }
        }
        end = end + 1;
    }
    let n = end - pos;
    proof {
        if end < bytes@.len() {
            assert(s[n as int] == bytes@[end as int] as char);
        }
        lemma_digit_run(s, n as int);
        assert(s.take(n as int) =~= chars_of(bytes@).subrange(pos as int, end as int));
    }
    if n == 0 || n > max_digits {
        return None;
    }
    assert(s[0] == bytes@[pos as int] as char);
    if n > 1 && bytes[pos] == 48 {
        return None;
    }
    match parse_digits(bytes, pos, end) {
        None => None,
        Some(v) => {
            if v <= max {
                Some((v, end))
            } else {
                None
            }
        },
    }
}

/// Reads an octet that follows a dot at `pos`.
fn read_dot_octet(bytes: &[u8], pos: usize) -> (r: Option<(u32, usize)>)
    requires
        pos <= bytes@.len(),
    ensures
        match r {
            Some((v, next)) => {
                &&& dot_octet(chars_of(bytes@), pos as nat) == Some((v as nat, next as nat))
                &&& next <= bytes@.len()
                &&& v <= 255
            },
            None => dot_octet(chars_of(bytes@), pos as nat) is None,
        },
{
    if pos >= bytes.len() || bytes[pos] != 46 {
        return None;
    }
    match read_number(bytes, pos + 1, 3, 255) {
        None => None,
        Some((v, next)) => Some((v as u32, next)),
    }
}

/// Reads four octets with dots between them from the start of `bytes`.
fn parse_quad(bytes: &[u8]) -> (r: Option<(u32, usize)>)
    ensures
        match r {
            Some((addr, end)) => {
                &&& spec_parse_quad(chars_of(bytes@)) == Some((addr, end as nat))
                &&& end <= bytes@.len()
            },
            None => spec_parse_quad(chars_of(bytes@)) is None,
        },
{
    let ghost s = chars_of(bytes@);
    assert(s.skip(0) =~= s);
    let (a, end_a) = match read_number(bytes, 0, 3, 255) {
        Some(x) => x,
        None => {
            return None;
        },
    };
    let (b, end_b) = match read_dot_octet(bytes, end_a) {
        Some(x) => x,
        None => {
            return None;
        },
    };
    let (c, end_c) = match read_dot_octet(bytes, end_b) {
        Some(x) => x,
        None => {
            return None;
        },
    };
    let (d, end_d) = match read_dot_octet(bytes, end_c) {
        Some(x) => x,
        None => {
            return None;
        },
    };
    let addr: u32 = (a as u32) * 0x100_0000 + b * 0x1_0000 + c * 0x100 + d;
    Some((addr, end_d))
}

/// A number at the start of a string is written in ASCII.
proof fn lemma_leading_number_ascii(s: Seq<char>, max_digits: nat, max: nat, i: int)
    requires
        leading_number(s, max_digits, max) is Some,
        0 <= i < leading_number(s, max_digits, max).unwrap().1,
    ensures
        i < s.len(),
        is_digit(s[i]),
{
    lemma_digit_run_bounds(s);
    let n = digit_run_of(s);
    assert(s.take(n as int)[i] == s[i]);
}

/// The digit run of a string, under a short name.
spec fn digit_run_of(s: Seq<char>) -> nat {
    crate::text::digit_run(s)
}

/// An octet after a dot is written in ASCII.
proof fn lemma_dot_octet_ascii(s: Seq<char>, pos: nat, i: int)
    requires
        dot_octet(s, pos) is Some,
        pos <= i < dot_octet(s, pos).unwrap().1,
    ensures
        i < s.len(),
        '\0' <= s[i] <= '\u{7f}',
{
    if i > pos {
        let t = s.skip(pos + 1 as int);
        lemma_leading_number_ascii(t, 3, 255, i - pos - 1);
        assert(t[i - pos - 1] == s[i]);
    }
}

/// A string that is an address holds ASCII characters only.
proof fn lemma_ipnet_ascii(s: Seq<char>)
    requires
        spec_parse_v4(s) is Some,
    ensures
        vstd::utf8::is_ascii_chars(s),
{
    let (a, end_a) = leading_number(s, 3, 255)->0;
    let (b, end_b) = dot_octet(s, end_a)->0;
    let (c, end_c) = dot_octet(s, end_b)->0;
    let (d, end_d) = dot_octet(s, end_c)->0;
    assert forall|i: int| 0 <= i < s.len() implies '\0' <= #[trigger] s[i] <= '\u{7f}' by {
        if i < end_a {
            lemma_leading_number_ascii(s, 3, 255, i);
        } else if i < end_b {
            lemma_dot_octet_ascii(s, end_a, i);
        } else if i < end_c {
            lemma_dot_octet_ascii(s, end_b, i);
        } else if i < end_d {
            lemma_dot_octet_ascii(s, end_c, i);
        } else if i > end_d {
            let t = s.skip(end_d + 1 as int);
            lemma_leading_number_ascii(t, 2, 32, i - end_d - 1);
            assert(t[i - end_d - 1] == s[i]);
        }
    }
}

/// An octet that was written behind a dot is read back where no digit
/// follows it, and what follows it is what is left to read.
proof fn lemma_dot_octet_written(s: Seq<char>, pos: nat, v: nat, rest: Seq<char>)
    requires
        v <= 255,
        pos <= s.len(),
        s.skip(pos as int) == seq!['.'] + (decimal_digits(v) + rest),
        rest.len() > 0 ==> !is_digit(rest[0]),
    ensures
        dot_octet(s, pos) == Some((v, pos + 1 + decimal_digits(v).len())),
        pos + 1 + decimal_digits(v).len() <= s.len(),
        s.skip((pos + 1 + decimal_digits(v).len()) as int) == rest,
{
    let tail = s.skip(pos as int);
    let text = decimal_digits(v);
    lemma_decimal_digits_len(v);
    lemma_leading_number_written(v, rest, 3, 255);
    assert(tail.len() == 1 + text.len() + rest.len());
    assert(s[pos as int] == tail[0]);
    assert forall|i: int| 0 <= i < text.len() + rest.len() implies s[pos + 1 + i] == (text
        + rest)[i] by {
        assert(s[pos + 1 + i] == tail[1 + i]);
    }
    assert(s.skip(pos + 1 as int) =~= text + rest);
    assert forall|i: int| 0 <= i < rest.len() implies s[pos + 1 + text.len() + i] == rest[i] by {
        assert(s[pos + 1 + text.len() + i] == tail[1 + text.len() + i]);
    }
    assert(s.skip((pos + 1 + text.len()) as int) =~= rest);
}

/// Four octets written with dots between them.
spec fn dotted(a: nat, b: nat, c: nat, d: nat) -> Seq<char> {
    decimal_digits(a) + seq!['.'] + decimal_digits(b) + seq!['.'] + decimal_digits(c) + seq!['.']
        + decimal_digits(d)
}

/// Four octets written with dots between them are read back one by one
/// where no digit follows them.
proof fn lemma_dotted_written(a: nat, b: nat, c: nat, d: nat, rest: Seq<char>)
    requires
        a <= 255,
        b <= 255,
        c <= 255,
        d <= 255,
        rest.len() > 0 ==> !is_digit(rest[0]),
    ensures
        ({
            let s = dotted(a, b, c, d) + rest;
            let end_a = decimal_digits(a).len();
            let end_b = end_a + 1 + decimal_digits(b).len();
            let end_c = end_b + 1 + decimal_digits(c).len();
            let end_d = end_c + 1 + decimal_digits(d).len();
            &&& leading_number(s, 3, 255) == Some((a, end_a))
            &&& dot_octet(s, end_a) == Some((b, end_b))
            &&& dot_octet(s, end_b) == Some((c, end_c))
            &&& dot_octet(s, end_c) == Some((d, end_d))
            &&& end_d == dotted(a, b, c, d).len()
        }),
{
    let ta = decimal_digits(a);
    let tb = decimal_digits(b);
    let tc = decimal_digits(c);
    let td = decimal_digits(d);
    let dot = seq!['.'];
    let s = dotted(a, b, c, d) + rest;
    let from_d = dot + (td + rest);
    let from_c = dot + (tc + from_d);
    let from_b = dot + (tb + from_c);
    assert(s =~= ta + from_b);
    lemma_decimal_digits_len(a);
    lemma_leading_number_written(a, from_b, 3, 255);
    let end_a = ta.len();
    assert(s.skip(end_a as int) =~= from_b);
    lemma_dot_octet_written(s, end_a, b, from_c);
    let end_b = end_a + 1 + tb.len();
    lemma_dot_octet_written(s, end_b, c, from_d);
    let end_c = end_b + 1 + tc.len();
    lemma_dot_octet_written(s, end_c, d, rest);
}

/// The four octets of an address, written with dots between them, are read
/// back as the address where no digit follows them.
proof fn lemma_quad_written(addr: u32, rest: Seq<char>)
    requires
        rest.len() > 0 ==> !is_digit(rest[0]),
    ensures
        spec_parse_quad(spec_quad_text(addr) + rest) == Some(
            (addr, spec_quad_text(addr).len()),
        ),
{
    let a = (addr / 0x100_0000) as nat;
    let b = (addr / 0x1_0000 % 0x100) as nat;
    let c = (addr / 0x100 % 0x100) as nat;
    let d = (addr % 0x100) as nat;
    assert(a * 0x100_0000 + b * 0x1_0000 + c * 0x100 + d == addr) by {
        lemma_octets(addr);
    }
    assert(a <= 255 && b <= 255 && c <= 255 && d <= 255);
    lemma_dotted_written(a, b, c, d, rest);
    assert(spec_quad_text(addr) == dotted(a, b, c, d));
}

/// An address is the sum of its octets, each in its place.
proof fn lemma_octets(addr: u32)
    ensures
        (addr / 0x100_0000) * 0x100_0000 + (addr / 0x1_0000 % 0x100) * 0x1_0000 + (addr / 0x100
            % 0x100) * 0x100 + addr % 0x100 == addr,
{
    let x = addr as int;
    let hi = x / 0x1_0000;
    let lo = x % 0x1_0000;
    assert(x == hi * 0x1_0000 + lo);
    assert(hi == (hi / 0x100) * 0x100 + hi % 0x100);
    assert(lo == (lo / 0x100) * 0x100 + lo % 0x100);
    assert(x / 0x100_0000 == hi / 0x100);
    assert(x / 0x100 % 0x100 == lo / 0x100);
    assert(x % 0x100 == lo % 0x100);
}

/// Read as written. The text of a well-formed network is read back as that
/// network.
pub proof fn lemma_parse_text_v4(ip: Ip4Net)
    requires
        ip.wf(),
    ensures
        spec_parse_v4(ip.spec_text()) == Some(ip),
{
    let quad = spec_quad_text(ip.addr);
    if ip.prefix == 32 {
        let none = Seq::<char>::empty();
        lemma_quad_written(ip.addr, none);
        assert(quad + none =~= quad);
    } else {
        let p = decimal_digits(ip.prefix as nat);
        let rest = seq!['/'] + p;
        let s = ip.spec_text();
        lemma_quad_written(ip.addr, rest);
        assert(s =~= quad + rest);
        assert(s[quad.len() as int] == '/');
        assert(s.skip(quad.len() + 1 as int) =~= p + Seq::<char>::empty());
        lemma_decimal_digits_len(ip.prefix as nat);
        lemma_leading_number_written(ip.prefix as nat, Seq::<char>::empty(), 2, 32);
    }
}

} // verus!
