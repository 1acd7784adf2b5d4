//! Packet observation: what is known of each packet seen, and the counters
//! kept over them.

use crate::text::{append_decimal, decimal_digits};
use vstd::prelude::*;
use vstd::string::*;

verus! {

/// What is known of one packet.
#[derive(Debug, PartialEq, Eq)]
pub struct PacketInfo {
    pub timestamp: u64,
    pub source_ip: String,
    pub dest_ip: String,
    pub protocol: String,
    pub source_port: Option<u16>,
    pub dest_port: Option<u16>,
    pub size: usize,
}

/// Why a capture failed.
#[derive(Clone, Copy, Debug, PartialEq, Eq, Structural)]
pub enum CaptureError {
    /// The clock reads a time before the Unix epoch.
    Clock,
}

/// Some key of the tally is `key`.
pub open spec fn has_key(tally: Seq<(Seq<char>, u64)>, key: Seq<char>) -> bool {
    exists|i: int| 0 <= i < tally.len() && (#[trigger] tally[i]).0 == key
}

/// Where `key` stands in the tally.
pub open spec fn key_position(tally: Seq<(Seq<char>, u64)>, key: Seq<char>) -> int {
    choose|i: int| 0 <= i < tally.len() && (#[trigger] tally[i]).0 == key
}

/// No two entries of the tally have one key.
pub open spec fn distinct_keys(tally: Seq<(Seq<char>, u64)>) -> bool {
    forall|i: int, j: int|
        0 <= i < j < tally.len() ==> (#[trigger] tally[i]).0 != (#[trigger] tally[j]).0
}

/// How often `key` was counted.
pub open spec fn count_of(tally: Seq<(Seq<char>, u64)>, key: Seq<char>) -> u64 {
    if has_key(tally, key) {
        tally[key_position(tally, key)].1
    } else {
        0
    }
}

/// One more than `n`, or `n` where it is the greatest `u64`.
pub open spec fn next_count(n: u64) -> u64 {
    if n == u64::MAX {
        n
    } else {
        (n + 1) as u64
    }
}

/// The tally after `key` was counted once more: the count of a key that is
/// there grows by one, and a new key comes last with a count of 1.
pub open spec fn counted(tally: Seq<(Seq<char>, u64)>, key: Seq<char>) -> Seq<(Seq<char>, u64)> {
    if has_key(tally, key) {
        let k = key_position(tally, key);
        tally.update(k, (key, next_count(tally[k].1)))
    } else {
        tally.push((key, 1))
    }
}

/// Counts by key, in the order in which the keys were first seen.
pub struct Tally {
    keys: Vec<String>,
    counts: Vec<u64>,
}

impl View for Tally {
    type V = Seq<(Seq<char>, u64)>;

    closed spec fn view(&self) -> Seq<(Seq<char>, u64)> {
        Seq::new(self.keys@.len(), |i: int| (self.keys@[i]@, self.counts@[i]))
    }
}

impl Tally {
    /// Each key has its count, and no key stands twice.
    pub closed spec fn wf(&self) -> bool {
        self.keys@.len() == self.counts@.len() && distinct_keys(self@)
    }

    /// A tally in which nothing was counted.
    pub fn new() -> (r: Tally)
        ensures
            r.wf(),
            r@ == Seq::<(Seq<char>, u64)>::empty(),
    {
        let t = Tally { keys: Vec::new(), counts: Vec::new() };
        assert(t@ =~= Seq::<(Seq<char>, u64)>::empty());
        t
    }

    /// How many keys were counted.
    pub fn len(&self) -> (r: usize)
        requires
            self.wf(),
        ensures
            r == self@.len(),
    {
        self.keys.len()
    }

    /// Where `key` stands.
    fn find(&self, key: &String) -> (r: Option<usize>)
        requires
            self.wf(),
        ensures
            match r {
                Some(k) => k < self@.len() && has_key(self@, key@) && key_position(self@, key@)
                    == k,
                None => !has_key(self@, key@),
            },
    {
        let mut i: usize = 0;
        while i < self.keys.len()
            invariant
                i <= self.keys@.len(),
                self.wf(),
                forall|j: int| 0 <= j < i ==> (#[trigger] self@[j]).0 != key@,
            decreases self.keys@.len() - i,
        {
            if self.keys[i] == *key {
                proof {
                    assert(self@[i as int].0 == key@);
                    let p = key_position(self@, key@);
                    if p < i {
                        assert(self@[p].0 != self@[i as int].0);
                    } else if i < p {
                        assert(self@[i as int].0 != self@[p].0);
                    }
                }
                return Some(i);
            }
            i = i + 1;
        }
        None
    }

    /// How often `key` was counted.
    pub fn get(&self, key: &str) -> (r: u64)
        requires
            self.wf(),
        ensures
            r == count_of(self@, key@),
    {
        let owned = key.to_owned();
        match self.find(&owned) {
            Some(k) => self.counts[k],
            None => 0,
        }
    }

    /// Counts `key` once more.
    pub fn bump(&mut self, key: &str)
        requires
            old(self).wf(),
        ensures
            final(self).wf(),
            final(self)@ == counted(old(self)@, key@),
    {
        let owned = key.to_owned();
        match self.find(&owned) {
            Some(k) => {
                let n = self.counts[k];
                let next = if n == u64::MAX {
                    n
                } else {
                    n + 1
                };
                self.counts.set(k, next);
                assert(self@ =~= counted(old(self)@, key@));
                assert forall|i: int, j: int| 0 <= i < j < self@.len() implies (
                #[trigger] self@[i]).0 != (#[trigger] self@[j]).0 by {
                    assert(old(self)@[i].0 != old(self)@[j].0);
                }
            },
            None => {
                self.keys.push(owned);
                self.counts.push(1);
                assert(self@ =~= counted(old(self)@, key@));
                assert forall|i: int, j: int| 0 <= i < j < self@.len() implies (
                #[trigger] self@[i]).0 != (#[trigger] self@[j]).0 by {
                    if j < old(self)@.len() {
                        assert(old(self)@[i].0 != old(self)@[j].0);
                    } else {
                        assert(old(self)@[i].0 != key@);
                    }
                }
            },
        }
    }

    /// The keys and their counts, in the order in which the keys were first
    /// seen.
    pub fn entries(&self) -> (r: Vec<(String, u64)>)
        requires
            self.wf(),
        ensures
            r@.len() == self@.len(),
            forall|i: int|
                0 <= i < r@.len() ==> (#[trigger] r@[i]).0@ == self@[i].0 && r@[i].1 == self@[i].1,
    {
        let mut out: Vec<(String, u64)> = Vec::new();
        let mut i: usize = 0;
        while i < self.keys.len()
            invariant
                i <= self.keys@.len(),
                self.wf(),
                out@.len() == i,
                forall|j: int|
                    0 <= j < i ==> (#[trigger] out@[j]).0@ == self@[j].0 && out@[j].1
                        == self@[j].1,
            decreases self.keys@.len() - i,
        {
            out.push((self.keys[i].clone(), self.counts[i]));
            i = i + 1;
        }
        out
    }
}

/// The protocol of the synthetic packet `i`.
pub open spec fn spec_protocol(i: nat) -> Seq<char> {
    let k = i % 6;
    if k == 0 {
        "TCP"@
    } else if k == 1 {
        "UDP"@
    } else if k == 2 {
        "HTTP"@
    } else if k == 3 {
        "DNS"@
    } else if k == 4 {
        "HTTPS"@
    } else {
        "ICMP"@
    }
}

/// The start of the address of the network `i`.
pub open spec fn spec_network(i: nat) -> Seq<char> {
    let k = i % 3;
    if k == 0 {
        "192.168.1."@
    } else if k == 1 {
        "10.0.0."@
    } else {
        "172.16.1."@
    }
}

/// The port that the synthetic packet `i` goes to: the port of its protocol
/// where that has one, else a port from 8080 on.
pub open spec fn spec_dest_port(i: nat) -> u16 {
    let k = i % 6;
    if k == 2 {
        80
    } else if k == 4 {
        443
    } else if k == 3 {
        53
    } else {
        (8080 + i % 100) as u16
    }
}

/// The protocol of the synthetic packet `i`.
fn protocol_name(i: usize) -> (r: &'static str)
    ensures
        r@ == spec_protocol(i as nat),
{
    let k = i % 6;
    if k == 0 {
        "TCP"
    } else if k == 1 {
        "UDP"
    } else if k == 2 {
        "HTTP"
    } else if k == 3 {
        "DNS"
    } else if k == 4 {
        "HTTPS"
    } else {
        "ICMP"
    }
}

/// The start of the address of the network `i`.
fn network_prefix(i: usize) -> (r: &'static str)
    ensures
        r@ == spec_network(i as nat),
{
    let k = i % 3;
    if k == 0 {
        "192.168.1."
    } else if k == 1 {
        "10.0.0."
    } else {
        "172.16.1."
    }
}

/// The synthetic packet `i` of a simulated capture, seen at `timestamp`.
pub fn synthetic_packet(i: usize, timestamp: u64) -> (r: PacketInfo)
    requires
        64 + i * 10 <= usize::MAX,
    ensures
        r.timestamp == timestamp,
        r.protocol@ == spec_protocol(i as nat),
        r.source_ip@ == spec_network(i as nat) + decimal_digits(i as nat),
        r.dest_ip@ == spec_network((i + 1) as nat) + decimal_digits((i + 1) as nat),
        r.source_port == Some((30000 + i % 1000) as u16),
        r.dest_port == Some(spec_dest_port(i as nat)),
        r.size == 64 + i * 10,
{
    let mut source_ip = String::from_str(network_prefix(i));
    append_decimal(&mut source_ip, i as u64);
    let mut dest_ip = String::from_str(network_prefix(i + 1));
    append_decimal(&mut dest_ip, (i + 1) as u64);
    let k = i % 6;
    let dest_port: u16 = if k == 2 {
        80
    } else if k == 4 {
        443
    } else if k == 3 {
        53
    } else {
        8080 + (i % 100) as u16
    };
    PacketInfo {
        timestamp,
        source_ip,
        dest_ip,
        protocol: String::from_str(protocol_name(i)),
        source_port: Some(30000 + (i % 1000) as u16),
        dest_port: Some(dest_port),
        size: 64 + i * 10,
    }
}

/// A port as it is shown: its number, or `?` where it is not known.
pub open spec fn spec_port_text(port: Option<u16>) -> Seq<char> {
    match port {
        Some(p) => decimal_digits(p as nat),
        None => "?"@,
    }
}

/// The key under which the connection of a packet is counted.
pub open spec fn spec_connection_key(source: Seq<char>, dest: Seq<char>) -> Seq<char> {
    source + " -> "@ + dest
}

/// The line that reports a packet as number `count`.
pub open spec fn spec_packet_line(
    count: u64,
    protocol: Seq<char>,
    source: Seq<char>,
    source_port: Option<u16>,
    dest: Seq<char>,
    dest_port: Option<u16>,
    size: usize,
) -> Seq<char> {
    "📦 Packet "@ + decimal_digits(count as nat) + ": "@ + protocol + " "@ + source + ":"@
        + spec_port_text(source_port) + " -> "@ + dest + ":"@ + spec_port_text(dest_port) + " ("@
        + decimal_digits(size as nat) + " bytes)"@
}

/// Appends a port as it is shown.
fn append_port(out: &mut String, port: Option<u16>)
    ensures
        final(out)@ == old(out)@ + spec_port_text(port),
{
    match port {
        Some(p) => append_decimal(out, p as u64),
        None => out.append("?"),
    }
}

/// What a capture has seen.
pub struct CaptureView {
    pub interface: Seq<char>,
    pub packet_count: u64,
    pub protocols: Seq<(Seq<char>, u64)>,
    pub connections: Seq<(Seq<char>, u64)>,
}

/// A capture on one interface, with its counters: the packets seen, and how
/// many of each protocol and of each connection.
pub struct PacketCapture {
    interface: String,
    packet_count: u64,
    protocol_stats: Tally,
    connection_stats: Tally,
}

impl View for PacketCapture {
    type V = CaptureView;

    closed spec fn view(&self) -> CaptureView {
        CaptureView {
            interface: self.interface@,
            packet_count: self.packet_count,
            protocols: self.protocol_stats@,
            connections: self.connection_stats@,
        }
    }
}

impl PacketCapture {
    /// The counters are well-formed.
    pub closed spec fn wf(&self) -> bool {
        self.protocol_stats.wf() && self.connection_stats.wf()
    }

    /// A capture on `interface_name` that has seen nothing.
    pub fn new(interface_name: &str) -> (r: Result<PacketCapture, CaptureError>)
        ensures
            r matches Ok(c) && c.wf() && c@ == (CaptureView {
                interface: interface_name@,
                packet_count: 0,
                protocols: Seq::empty(),
                connections: Seq::empty(),
            }),
    {
        Ok(
            PacketCapture {
                interface: interface_name.to_owned(),
                packet_count: 0,
                protocol_stats: Tally::new(),
                connection_stats: Tally::new(),
            },
        )
    }

    /// The interface of the capture.
    pub fn interface(&self) -> (r: &str)
        ensures
            r@ == self@.interface,
    {
        self.interface.as_str()
    }

    /// How many packets were seen.
    pub fn packet_count(&self) -> (r: u64)
        ensures
            r == self@.packet_count,
    {
        self.packet_count
    }

    /// How many different connections were seen.
    pub fn unique_connections(&self) -> (r: usize)
        requires
            self.wf(),
        ensures
            r == self@.connections.len(),
    {
        self.connection_stats.len()
    }

    /// The protocols seen and how many packets of each, in the order in
    /// which they were first seen.
    pub fn protocol_counts(&self) -> (r: Vec<(String, u64)>)
        requires
            self.wf(),
        ensures
            r@.len() == self@.protocols.len(),
            forall|i: int|
                0 <= i < r@.len() ==> (#[trigger] r@[i]).0@ == self@.protocols[i].0 && r@[i].1
                    == self@.protocols[i].1,
    {
        self.protocol_stats.entries()
    }

    /// Counts one more packet seen. The count stops at the greatest `u64`.
    pub fn count_packet(&mut self)
        requires
            old(self).wf(),
        ensures
            final(self).wf(),
            final(self)@ == (CaptureView {
                packet_count: next_count(old(self)@.packet_count),
                ..old(self)@
            }),
    {
        if self.packet_count < u64::MAX {
            self.packet_count = self.packet_count + 1;
        }
    }

    /// Takes a packet into the counters of its protocol and of its
    /// connection, and gives the line that reports it under the count of
    /// packets as it stands. The count itself is left as it is.
    pub fn process_packet(&mut self, packet: &PacketInfo) -> (line: String)
        requires
            old(self).wf(),
        ensures
            final(self).wf(),
            final(self)@ == (CaptureView {
                interface: old(self)@.interface,
                packet_count: old(self)@.packet_count,
                protocols: counted(old(self)@.protocols, packet.protocol@),
                connections: counted(
                    old(self)@.connections,
                    spec_connection_key(packet.source_ip@, packet.dest_ip@),
                ),
            }),
            line@ == spec_packet_line(
                old(self)@.packet_count,
                packet.protocol@,
                packet.source_ip@,
                packet.source_port,
                packet.dest_ip@,
                packet.dest_port,
                packet.size,
            ),
    {
        self.protocol_stats.bump(packet.protocol.as_str());
        let mut key = packet.source_ip.clone();
        key.append(" -> ");
        key.append(packet.dest_ip.as_str());
        self.connection_stats.bump(key.as_str());
        let mut line = String::from_str("📦 Packet ");
        append_decimal(&mut line, self.packet_count);
        line.append(": ");
        line.append(packet.protocol.as_str());
        line.append(" ");
        line.append(packet.source_ip.as_str());
        line.append(":");
        append_port(&mut line, packet.source_port);
        line.append(" -> ");
        line.append(packet.dest_ip.as_str());
        line.append(":");
        append_port(&mut line, packet.dest_port);
        line.append(" (");
        append_decimal(&mut line, packet.size as u64);
        line.append(" bytes)");
        line
    }
}

} // verus!
