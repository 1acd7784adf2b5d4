//! IPv6 networks: an address of eight groups of sixteen bits and a prefix
//! length, read from the colon notation and written in one normal form.

use crate::hex::{
    append_hex, hex_digits, is_hex, leading_group, lemma_leading_group_written, read_group,
};
use crate::text::{
    all_digits, append_decimal, decimal_digits, decimal_value, digit_value, is_digit,
    leading_number, lemma_decimal_digits_len, lemma_decimal_value_step, lemma_digit_run,
    lemma_leading_number_written,
};
use vstd::prelude::*;
use vstd::string::*;

verus! {

/// An IPv6 network: the address of its first host and the number of leading
/// bits that its hosts share. A single address is a network of prefix 128.
#[derive(Clone, Copy, Debug, PartialEq, Eq, Structural)]
pub struct Ip6Net {
    pub addr: u128,
    pub prefix: u8,
}

/// The bits of an address that a prefix of `prefix` bits fixes.
pub open spec fn netmask6(prefix: u8) -> u128 {
    if prefix == 0 {
        0u128
    } else {
        0xffff_ffff_ffff_ffff_ffff_ffff_ffff_ffffu128 << ((128 - prefix) as u128)
    }
}

/// A group that follows a single colon at `pos`: its value and the position
/// after it.
pub open spec fn further_group(s: Seq<char>, pos: nat) -> Option<(nat, nat)> {
    if pos < s.len() && s[pos as int] == ':' {
        match leading_group(s.skip(pos + 1 as int)) {
            Some((v, n)) => Some((v, pos + 1 + n)),
            None => None,
        }
    } else {
        None
    }
}

/// The groups `acc` and those that follow at `pos`, each behind a single
/// colon, and the position after the last of them. A colon that no group
/// follows is not taken.
pub open spec fn more_groups(s: Seq<char>, pos: nat, acc: Seq<nat>) -> (Seq<nat>, nat)
    decreases s.len() - pos,
{
    match further_group(s, pos) {
        Some((v, next)) => if pos < next <= s.len() {
            more_groups(s, next, acc.push(v))
        } else {
            (acc, pos)
        },
        None => (acc, pos),
    }
}

/// The groups that stand at `pos` with single colons between them, and the
/// position after the last of them.
pub open spec fn groups_at(s: Seq<char>, pos: nat) -> (Seq<nat>, nat) {
    match leading_group(s.skip(pos as int)) {
        Some((v, n)) => more_groups(s, pos + n, seq![v]),
        None => (Seq::empty(), pos),
    }
}

/// The address of eight groups, the most significant first.
pub open spec fn join(g: Seq<nat>) -> u128 {
    ((g[0] as u128) << 112) | ((g[1] as u128) << 96) | ((g[2] as u128) << 80) | ((g[3] as u128)
        << 64) | ((g[4] as u128) << 48) | ((g[5] as u128) << 32) | ((g[6] as u128) << 16) | (
    g[7] as u128)
}

/// The eight groups that `head`, a double colon and `tail` stand for: the
/// double colon is as many groups of zero as are missing.
pub open spec fn spread(head: Seq<nat>, tail: Seq<nat>) -> Seq<nat> {
    Seq::new(
        8,
        |i: int|
            if i < head.len() {
                head[i]
            } else if i >= 8 - tail.len() {
                tail[i - (8 - tail.len())]
            } else {
                0nat
            },
    )
}

/// The groups at the start of `s`: eight of them, or fewer with one double
/// colon in the place of the groups of zero that are left out. The address
/// they spell and the position after them.
pub open spec fn spec_parse_groups(s: Seq<char>) -> Option<(u128, nat)> {
    let head = groups_at(s, 0);
    let p = head.1;
    if p + 1 < s.len() && s[p as int] == ':' && s[p + 1 as int] == ':' {
        let tail = groups_at(s, p + 2);
        if head.0.len() + tail.0.len() <= 7 {
            Some((join(spread(head.0, tail.0)), tail.1))
        } else {
            None
        }
    } else if head.0.len() == 8 {
        Some((join(head.0), p))
    } else {
        None
    }
}

/// What a string means as an IPv6 network: groups of one to four hexadecimal
/// digits with colons between them, where one double colon may stand for one
/// or more groups of zero, and after them nothing or `/p` with `p` from 0 to
/// 128 in decimal without a leading zero. The host bits of a network are
/// cleared. `None` for any other string: an address that ends in a dotted
/// quad or names a zone is not read.
pub open spec fn spec_parse_v6(s: Seq<char>) -> Option<Ip6Net> {
    match spec_parse_groups(s) {
        None => None,
        Some((addr, end)) => if end == s.len() {
            Some(Ip6Net { addr, prefix: 128 })
        } else if s[end as int] == '/' {
            match leading_number(s.skip(end + 1 as int), 3, 128) {
                Some((p, n)) => if end + 1 + n == s.len() {
                    Some(Ip6Net { addr: addr & netmask6(p as u8), prefix: p as u8 })
                } else {
                    None
                },
                None => None,
            }
        } else {
            None
        },
    }
}

/// The eight groups of an address, the most significant first.
pub open spec fn groups_of(addr: u128) -> Seq<nat> {
    seq![
        ((addr >> 112) & 0xffff) as nat,
        ((addr >> 96) & 0xffff) as nat,
        ((addr >> 80) & 0xffff) as nat,
        ((addr >> 64) & 0xffff) as nat,
        ((addr >> 48) & 0xffff) as nat,
        ((addr >> 32) & 0xffff) as nat,
        ((addr >> 16) & 0xffff) as nat,
        (addr & 0xffff) as nat,
    ]
}

/// Each group behind a colon, in lower case and without leading zeros.
pub open spec fn tail_text(t: Seq<nat>) -> Seq<char>
    decreases t.len(),
{
    if t.len() == 0 {
        Seq::empty()
    } else {
        tail_text(t.drop_last()) + seq![':'] + hex_digits(t.last())
    }
}

/// The groups with colons between them.
pub open spec fn groups_text(g: Seq<nat>) -> Seq<char> {
    hex_digits(g[0]) + tail_text(g.skip(1))
}

/// The numbers that groups hold.
pub open spec fn nats(g: Seq<u16>) -> Seq<nat> {
    Seq::new(g.len(), |i: int| g[i] as nat)
}

impl Ip6Net {
    /// The prefix is at most 128 bits long and no host bit is set.
    pub open spec fn wf(self) -> bool {
        self.prefix <= 128 && self.addr & netmask6(self.prefix) == self.addr
    }

    /// How the network is written: all eight groups, and `/p` behind them
    /// for a prefix shorter than 128.
    pub open spec fn spec_text(self) -> Seq<char> {
        if self.prefix == 128 {
            groups_text(groups_of(self.addr))
        } else {
            groups_text(groups_of(self.addr)) + seq!['/'] + decimal_digits(self.prefix as nat)
        }
    }

    /// The network of `prefix` bits that holds `addr`; `None` where `prefix`
    /// is more than 128.
    pub fn new(addr: u128, prefix: u8) -> (r: Option<Ip6Net>)
        ensures
            r == (if prefix <= 128 {
                Some(Ip6Net { addr: addr & netmask6(prefix), prefix })
            } else {
                None::<Ip6Net>
            }),
            r matches Some(ip) ==> ip.wf(),
    {
        if prefix > 128 {
            None
        } else {
            let mask = mask_of(prefix);
            assert((addr & mask) & mask == addr & mask) by (bit_vector);
            Some(Ip6Net { addr: addr & mask, prefix })
        }
    }

    /// Reads the colon notation, with or without `/p`.
    pub fn parse(text: &str) -> (r: Option<Ip6Net>)
        ensures
            r == spec_parse_v6(text@),
            r matches Some(ip) ==> ip.wf(),
    {
        let len = text.unicode_len();
        let (head, p) = read_groups(text, 0);
        let (addr, end) = if p < len && p + 1 < len && text.get_char(p) == ':' && text.get_char(
            p + 1,
        ) == ':' {
            let (tail, q) = read_groups(text, p + 2);
            if head.len() > 7 || tail.len() > 7 - head.len() {
                return None;
            }
            (join_groups(&spread_groups(&head, &tail)), q)
        } else if head.len() == 8 {
            (join_groups(&head), p)
        } else {
            return None;
        };
        if end == len {
            assert(0xffff_ffff_ffff_ffff_ffff_ffff_ffff_ffffu128 << 0u128
                == 0xffff_ffff_ffff_ffff_ffff_ffff_ffff_ffffu128) by (bit_vector);
            assert(addr & 0xffff_ffff_ffff_ffff_ffff_ffff_ffff_ffffu128 == addr) by (bit_vector);
            return Some(Ip6Net { addr, prefix: 128 });
        }
        if text.get_char(end) != '/' {
            return None;
        }
        match read_prefix(text, end + 1) {
            None => None,
            Some((bits, next)) => {
                if next == len {
                    Ip6Net::new(addr, bits)
                } else {
                    None
                }
            },
        }
    }

    /// Writes the network as `parse` reads it.
    pub fn to_text(&self) -> (r: String)
        ensures
            r@ == self.spec_text(),
    {
        let groups = split_groups(self.addr);
        let ghost g = nats(groups@);
        let mut out = String::new();
        append_hex(&mut out, groups[0]);
        let mut i: usize = 1;
        assert(g.subrange(1, 1) =~= Seq::<nat>::empty());
        while i < 8
            invariant
                1 <= i <= 8,
                groups@.len() == 8,
                g == nats(groups@),
                out@ == hex_digits(g[0]) + tail_text(g.subrange(1, i as int)),
            decreases 8 - i,
        {
            let ghost before = out@;
            out.append(":");
            append_hex(&mut out, groups[i]);
            proof {
                reveal_strlit(":");
                assert(":"@ =~= seq![':']);
                let t = g.subrange(1, i + 1);
                assert(t.drop_last() =~= g.subrange(1, i as int));
                assert(t.last() == g[i as int]);
                assert(out@ =~= hex_digits(g[0]) + tail_text(t));
            }
            i = i + 1;
        }
        proof {
            assert(g.subrange(1, 8) =~= g.skip(1));
            assert(g == groups_of(self.addr));
        }
        if self.prefix != 128 {
            out.append("/");
            append_decimal(&mut out, self.prefix as u64);
            proof {
                reveal_strlit("/");
                assert("/"@ =~= seq!['/']);
                assert(out@ =~= self.spec_text());
            }
        }
        out
    }
}

/// The mask of a prefix.
fn mask_of(prefix: u8) -> (r: u128)
    requires
        prefix <= 128,
    ensures
        r == netmask6(prefix),
{
    if prefix == 0 {
        0
    } else {
        0xffff_ffff_ffff_ffff_ffff_ffff_ffff_ffffu128 << ((128 - prefix) as u128)
    }
}

/// Reads a group that follows a single colon at `pos`.
fn read_further(text: &str, pos: usize) -> (r: Option<(u16, usize)>)
    requires
        pos <= text@.len(),
    ensures
        match r {
            Some((v, next)) => {
                &&& further_group(text@, pos as nat) == Some((v as nat, next as nat))
                &&& pos < next <= text@.len()
            },
            None => further_group(text@, pos as nat) is None,
        },
{
    if pos < text.unicode_len() && text.get_char(pos) == ':' {
        read_group(text, pos + 1)
    } else {
        None
    }
}

/// Reads the groups that stand at `pos` with single colons between them.
fn read_groups(text: &str, pos: usize) -> (r: (Vec<u16>, usize))
    requires
        pos <= text@.len(),
    ensures
        (nats(r.0@), r.1 as nat) == groups_at(text@, pos as nat),
        pos <= r.1 <= text@.len(),
{
    let mut groups: Vec<u16> = Vec::new();
    let (first, start) = match read_group(text, pos) {
        Some(x) => x,
        None => {
            assert(nats(groups@) =~= Seq::<nat>::empty());
            return (groups, pos);
        },
    };
    groups.push(first);
    assert(nats(groups@) =~= seq![first as nat]);
    let mut end: usize = start;
    let mut next = read_further(text, end);
    while next.is_some()
        invariant
            pos <= end <= text@.len(),
            more_groups(text@, end as nat, nats(groups@)) == groups_at(text@, pos as nat),
            match next {
                Some((v, after)) => {
                    &&& further_group(text@, end as nat) == Some((v as nat, after as nat))
                    &&& end < after <= text@.len()
                },
                None => further_group(text@, end as nat) is None,
            },
        decreases text@.len() - end,
    {
        let (v, after) = next.unwrap();
        let ghost before = nats(groups@);
        groups.push(v);
        assert(nats(groups@) =~= before.push(v as nat));
        end = after;
        next = read_further(text, end);
    }
    (groups, end)
}

/// The eight groups that `head`, a double colon and `tail` stand for.
fn spread_groups(head: &Vec<u16>, tail: &Vec<u16>) -> (r: Vec<u16>)
    requires
        head@.len() + tail@.len() <= 8,
    ensures
        r@.len() == 8,
        nats(r@) == spread(nats(head@), nats(tail@)),
{
    let mut full: Vec<u16> = Vec::new();
    let gap: usize = 8 - tail.len();
    let mut i: usize = 0;
    while i < 8
        invariant
            i <= 8,
            full@.len() == i,
            gap == 8 - tail@.len(),
            head@.len() + tail@.len() <= 8,
            forall|j: int|
                0 <= j < i ==> (#[trigger] full@[j]) as nat == spread(
                    nats(head@),
                    nats(tail@),
                )[j],
        decreases 8 - i,
    {
        let g: u16 = if i < head.len() {
            head[i]
        } else if i >= gap {
            tail[i - gap]
        } else {
            0
        };
        full.push(g);
        i = i + 1;
    }
    assert(nats(full@) =~= spread(nats(head@), nats(tail@)));
    full
}

/// The address of eight groups.
fn join_groups(groups: &Vec<u16>) -> (r: u128)
    requires
        groups@.len() == 8,
    ensures
        r == join(nats(groups@)),
{
    ((groups[0] as u128) << 112) | ((groups[1] as u128) << 96) | ((groups[2] as u128) << 80) | ((
    groups[3] as u128) << 64) | ((groups[4] as u128) << 48) | ((groups[5] as u128) << 32) | ((
    groups[6] as u128) << 16) | (groups[7] as u128)
}

/// The eight groups of an address.
fn split_groups(addr: u128) -> (r: Vec<u16>)
    ensures
        r@.len() == 8,
        nats(r@) == groups_of(addr),
{
    let mut groups: Vec<u16> = Vec::new();
    assert(forall|x: u128| #[trigger] (x & 0xffff) <= 0xffff) by {
        assert forall|x: u128| #[trigger] (x & 0xffff) <= 0xffff by {
            assert(x & 0xffff <= 0xffff) by (bit_vector);
        }
    }
    groups.push(((addr >> 112) & 0xffff) as u16);
    groups.push(((addr >> 96) & 0xffff) as u16);
    groups.push(((addr >> 80) & 0xffff) as u16);
    groups.push(((addr >> 64) & 0xffff) as u16);
    groups.push(((addr >> 48) & 0xffff) as u16);
    groups.push(((addr >> 32) & 0xffff) as u16);
    groups.push(((addr >> 16) & 0xffff) as u16);
    groups.push((addr & 0xffff) as u16);
    assert(nats(groups@) =~= groups_of(addr));
    groups
}

/// The number that a character stands for as a decimal digit.
fn digit_of(c: char) -> (r: Option<u32>)
    ensures
        r is Some <==> is_digit(c),
        r matches Some(d) ==> d == digit_value(c) && d < 10,
{
    let n: u32 = c as u32;
    if 48 <= n && n <= 57 {
        Some(n - 48)
    } else {
        None
    }
}

/// Reads a prefix length at `pos`: a number up to 128 in at most three digits
/// without a leading zero. Its value and the position after its last digit.
fn read_prefix(text: &str, pos: usize) -> (r: Option<(u8, usize)>)
    requires
        pos <= text@.len(),
    ensures
        match r {
            Some((v, next)) => {
                &&& leading_number(text@.skip(pos as int), 3, 128) == Some(
                    (v as nat, (next - pos) as nat),
                )
                &&& pos < next <= text@.len()
                &&& v <= 128
            },
            None => leading_number(text@.skip(pos as int), 3, 128) is None,
        },
{
    let len = text.unicode_len();
    let ghost s = text@.skip(pos as int);
    let mut end: usize = pos;
    let mut acc: u32 = 0;
    let mut digit: Option<u32> = if end < len {
        digit_of(text.get_char(end))
    } else {
        None
    };
    while digit.is_some()
        invariant
            pos <= end <= len,
            len == text@.len(),
            s == text@.skip(pos as int),
            all_digits(s.take(end - pos)),
            end - pos <= 3 ==> acc == decimal_value(s.take(end - pos)),
            end - pos == 0 ==> acc == 0,
            end - pos == 1 ==> acc < 10,
            end - pos == 2 ==> acc < 100,
            acc < 1000,
            digit is Some ==> end < len && is_digit(s[end - pos]) && digit.unwrap()
                == digit_value(s[end - pos]),
            digit is None ==> end == len || !is_digit(s[end - pos]),
        decreases len - end,
    {
        let ghost k = (end - pos) as int;
        let d = digit.unwrap();
        proof {
            lemma_decimal_value_step(s, k);
            assert forall|j: int| 0 <= j < k + 1 implies is_digit(#[trigger] s.take(k + 1)[j]) by {
                if j < k {
                    assert(s.take(k + 1)[j] == s.take(k)[j]);
                }
            }
        }
        if end - pos < 3 {
            acc = acc * 10 + d;
        }
        end = end + 1;
        digit = if end < len {
            digit_of(text.get_char(end))
        } else {
            None
        };
    }
    let n = end - pos;
    proof {
        lemma_digit_run(s, n as int);
    }
    if n == 0 || n > 3 {
        return None;
    }
    assert(s[0] == text@[pos as int]);
    if n > 1 && text.get_char(pos) == '0' {
        return None;
    }
    if acc > 128 {
        None
    } else {
        Some((acc as u8, end))
    }
}

/// The groups behind colons, from the first of them on.
pub proof fn lemma_tail_text_first(t: Seq<nat>)
    requires
        t.len() > 0,
    ensures
        tail_text(t) == seq![':'] + hex_digits(t[0]) + tail_text(t.drop_first()),
    decreases t.len(),
{
    if t.len() == 1 {
        assert(t.drop_last() =~= Seq::<nat>::empty());
        assert(t.drop_first() =~= Seq::<nat>::empty());
        assert(tail_text(t) =~= seq![':'] + hex_digits(t[0]) + tail_text(t.drop_first()));
    } else {
        let init = t.drop_last();
        lemma_tail_text_first(init);
        assert(init.drop_first() =~= t.drop_first().drop_last());
        assert(t.drop_first().last() == t.last());
        assert(init[0] == t[0]);
        assert(tail_text(t) =~= seq![':'] + hex_digits(t[0]) + tail_text(t.drop_first()));
    }
}

/// Groups that were written behind colons are read back, where neither a
/// colon nor a hexadecimal digit follows them.
proof fn lemma_groups_written(s: Seq<char>, pos: nat, acc: Seq<nat>, t: Seq<nat>, rest: Seq<char>)
    requires
        pos <= s.len(),
        s.skip(pos as int) == tail_text(t) + rest,
        forall|i: int| 0 <= i < t.len() ==> #[trigger] t[i] < 0x1_0000,
        rest.len() > 0 ==> rest[0] != ':' && !is_hex(rest[0]),
    ensures
        more_groups(s, pos, acc) == (acc + t, (s.len() - rest.len()) as nat),
    decreases t.len(),
{
    let here = s.skip(pos as int);
    if t.len() == 0 {
        assert(here =~= rest);
        assert(here.len() == s.len() - pos);
        if pos < s.len() {
            assert(s[pos as int] == here[0]);
        }
        assert(acc + t =~= acc);
    } else {
        lemma_tail_text_first(t);
        let d = hex_digits(t[0]);
        let later = tail_text(t.drop_first()) + rest;
        assert(here =~= seq![':'] + d + later);
        assert(here.len() == s.len() - pos);
        assert(s[pos as int] == here[0]);
        if t.len() > 1 {
            lemma_tail_text_first(t.drop_first());
            assert(later[0] == ':');
        } else {
            assert(t.drop_first() =~= Seq::<nat>::empty());
            assert(later =~= rest);
        }
        lemma_leading_group_written(t[0], later);
        assert(s.skip(pos + 1 as int) =~= here.skip(1));
        assert(here.skip(1) =~= d + later);
        let next = (pos + 1 + d.len()) as nat;
        assert(s.skip(next as int) =~= here.skip(1 + d.len() as int));
        assert(here.skip(1 + d.len() as int) =~= later);
        assert forall|i: int| 0 <= i < t.drop_first().len() implies #[trigger] t.drop_first()[i]
            < 0x1_0000 by {
            assert(t.drop_first()[i] == t[i + 1]);
        }
        lemma_groups_written(s, next, acc.push(t[0]), t.drop_first(), rest);
        assert(acc.push(t[0]) + t.drop_first() =~= acc + t);
    }
}

/// The groups of an address make up the address.
proof fn lemma_join_groups(addr: u128)
    ensures
        join(groups_of(addr)) == addr,
        forall|i: int| 0 <= i < 8 ==> #[trigger] groups_of(addr)[i] < 0x1_0000,
{
    assert(addr == (((addr >> 112) & 0xffff) << 112) | (((addr >> 96) & 0xffff) << 96) | (((addr
        >> 80) & 0xffff) << 80) | (((addr >> 64) & 0xffff) << 64) | (((addr >> 48) & 0xffff)
        << 48) | (((addr >> 32) & 0xffff) << 32) | (((addr >> 16) & 0xffff) << 16) | (addr
        & 0xffff)) by (bit_vector);
    assert(forall|x: u128| #[trigger] (x & 0xffff) <= 0xffff) by {
        assert forall|x: u128| #[trigger] (x & 0xffff) <= 0xffff by {
            assert(x & 0xffff <= 0xffff) by (bit_vector);
        }
    }
}

/// Groups that were written with colons between them are read back, where
/// neither a colon nor a hexadecimal digit follows them.
proof fn lemma_groups_text_read(g: Seq<nat>, rest: Seq<char>)
    requires
        g.len() >= 1,
        forall|i: int| 0 <= i < g.len() ==> #[trigger] g[i] < 0x1_0000,
        rest.len() > 0 ==> rest[0] != ':' && !is_hex(rest[0]),
    ensures
        groups_at(groups_text(g) + rest, 0) == (g, groups_text(g).len()),
{
    let s = groups_text(g) + rest;
    let t = g.skip(1);
    let d = hex_digits(g[0]);
    let later = tail_text(t) + rest;
    assert(s =~= d + later);
    assert(s.skip(0) =~= s);
    if t.len() > 0 {
        lemma_tail_text_first(t);
        assert(later[0] == ':');
    } else {
        assert(later =~= rest);
    }
    lemma_leading_group_written(g[0], later);
    assert(s.skip(d.len() as int) =~= later);
    assert forall|i: int| 0 <= i < t.len() implies #[trigger] t[i] < 0x1_0000 by {
        assert(t[i] == g[i + 1]);
    }
    lemma_groups_written(s, d.len(), seq![g[0]], t, rest);
    assert(seq![g[0]] + t =~= g);
}

/// What is written for a network is read as that network.
pub proof fn lemma_parse_text_v6(ip: Ip6Net)
    requires
        ip.wf(),
    ensures
        spec_parse_v6(ip.spec_text()) == Some(ip),
{
    let g = groups_of(ip.addr);
    let s = ip.spec_text();
    let rest = if ip.prefix == 128 {
        Seq::<char>::empty()
    } else {
        seq!['/'] + decimal_digits(ip.prefix as nat)
    };
    lemma_join_groups(ip.addr);
    assert(g.len() == 8);
    lemma_groups_text_read(g, rest);
    let p = groups_text(g).len();
    assert(s =~= groups_text(g) + rest);
    assert(groups_at(s, 0) == (g, p));
    if ip.prefix == 128 {
        assert(p == s.len());
        assert(spec_parse_groups(s) == Some((ip.addr, p)));
    } else {
        assert(s[p as int] == '/');
        assert(spec_parse_groups(s) == Some((ip.addr, p)));
        lemma_decimal_digits_len(ip.prefix as nat);
        lemma_leading_number_written(ip.prefix as nat, Seq::empty(), 3, 128);
        assert(s.skip(p + 1 as int) =~= decimal_digits(ip.prefix as nat) + Seq::<char>::empty());
    }
}

} // verus!
