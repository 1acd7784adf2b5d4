//! The addresses that rules match: an address or a network in CIDR
//! notation, of IPv4 or of IPv6, held in one normal form so that two
//! spellings of the same network are the same key.

use crate::hex::{hex_digits, lemma_hex_digits_value};
use crate::ipv4::{dot_octet, lemma_parse_text_v4, spec_parse_quad, spec_parse_v4, Ip4Net};
use crate::ipv6::{
    groups_of, groups_text, lemma_parse_text_v6, lemma_tail_text_first, spec_parse_v6, tail_text,
    Ip6Net,
};
use crate::text::{digit_run, leading_number, lemma_digit_run_bounds};
use vstd::prelude::*;

verus! {

/// A network of one of the two families. A single address is the network of
/// the longest prefix of its family.
#[derive(Clone, Copy, Debug, PartialEq, Eq, Structural)]
pub enum IpNet {
    V4(Ip4Net),
    V6(Ip6Net),
}

/// What a string means as an address: what it means in the dotted notation
/// of IPv4, or else what it means in the colon notation of IPv6. `None` for
/// a string that is neither.
pub open spec fn spec_parse_ipnet(s: Seq<char>) -> Option<IpNet> {
    match spec_parse_v4(s) {
        Some(net) => Some(IpNet::V4(net)),
        None => match spec_parse_v6(s) {
            Some(net) => Some(IpNet::V6(net)),
            None => None,
        },
    }
}

impl IpNet {
    /// The prefix is no longer than an address of the family and no host bit
    /// is set.
    pub open spec fn wf(self) -> bool {
        match self {
            IpNet::V4(net) => net.wf(),
            IpNet::V6(net) => net.wf(),
        }
    }

    /// How the network is written.
    pub open spec fn spec_text(self) -> Seq<char> {
        match self {
            IpNet::V4(net) => net.spec_text(),
            IpNet::V6(net) => net.spec_text(),
        }
    }

    /// Reads an address or a network of either family.
    pub fn parse(text: &str) -> (r: Option<IpNet>)
        ensures
            r == spec_parse_ipnet(text@),
            r matches Some(ip) ==> ip.wf(),
    {
        match Ip4Net::parse(text) {
            Some(net) => Some(IpNet::V4(net)),
            None => match Ip6Net::parse(text) {
                Some(net) => Some(IpNet::V6(net)),
                None => None,
            },
        }
    }

    /// Writes the network as `parse` reads it.
    pub fn to_text(&self) -> (r: String)
        ensures
            r@ == self.spec_text(),
    {
        match self {
            IpNet::V4(net) => net.to_text(),
            IpNet::V6(net) => net.to_text(),
        }
    }
}

/// What is written for an IPv6 network does not read as an IPv4 network: a
/// colon stands where the first dot would.
proof fn lemma_colon_text_is_no_quad(net: Ip6Net)
    ensures
        spec_parse_v4(net.spec_text()) is None,
{
    let g = groups_of(net.addr);
    let s = net.spec_text();
    let d = hex_digits(g[0]);
    let t = g.skip(1);
    let n = d.len() as int;
    lemma_hex_digits_value(g[0]);
    lemma_tail_text_first(t);
    assert(tail_text(t)[0] == ':');
    assert(groups_text(g) =~= d + tail_text(t));
    assert(s[n] == ':');
    assert forall|i: int| 0 <= i < n implies s[i] != '.' by {
        assert(s[i] == d[i]);
        assert(crate::hex::is_hex(d[i]));
    }
    lemma_digit_run_bounds(s);
    let run = digit_run(s) as int;
    if run > n {
        assert(s.take(run)[n] == s[n]);
        assert(crate::text::is_digit(s.take(run)[n]));
    }
    assert(s[run] != '.');
    assert(leading_number(s, 3, 255) matches Some((a, end)) ==> dot_octet(s, end) is None);
    assert(spec_parse_quad(s) is None);
}

/// What is written for a network is read as that network.
pub proof fn lemma_parse_text(ip: IpNet)
    requires
        ip.wf(),
    ensures
        spec_parse_ipnet(ip.spec_text()) == Some(ip),
{
    match ip {
        IpNet::V4(net) => {
            lemma_parse_text_v4(net);
        },
        IpNet::V6(net) => {
            lemma_colon_text_is_no_quad(net);
            lemma_parse_text_v6(net);
        },
    }
}

} // verus!
