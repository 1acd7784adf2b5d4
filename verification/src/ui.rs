//! The state of the monitoring screen: which view is shown, which rule is
//! selected, and the figures that the screen displays. Drawing is the
//! caller's business.

use crate::text::{append_decimal, decimal_digits};
use std::collections::VecDeque;
use vstd::prelude::*;
use vstd::string::*;
use vstd::view::View as _;

verus! {

/// The views of the screen, in the order of the menu.
#[derive(Clone, Copy, Debug, PartialEq, Eq, Structural)]
pub enum View {
    Packets,
    Sessions,
    Firewall,
    Geography,
    Protocols,
}

/// One connection as the sessions view lists it.
#[derive(Clone, Debug, PartialEq, Eq)]
pub struct Connection {
    pub protocol: String,
    pub source: String,
    pub destination: String,
    pub status: String,
    pub duration: String,
}

/// A key press, as far as the screen tells keys apart.
#[derive(Clone, Copy, Debug, PartialEq, Eq, Structural)]
pub enum Key {
    Char(char),
    Esc,
    Left,
    Right,
    Up,
    Down,
    Other,
}

/// The figures of the screen. Traffic is in tenths of a megabyte per second.
#[derive(Clone, Copy, Debug, PartialEq, Eq, Structural)]
pub struct LiveStats {
    pub packets_per_second: u64,
    pub traffic_in_tenths: u64,
    pub traffic_out_tenths: u64,
    pub active_connections: usize,
    pub blocked_connections: u64,
    pub active_rules: usize,
}

/// How many lines the packet log keeps.
pub const PACKET_LOG_CAPACITY: usize = 50;

impl View {
    /// The place of the view in the menu, from 0.
    pub open spec fn spec_index(self) -> nat {
        match self {
            View::Packets => 0,
            View::Sessions => 1,
            View::Firewall => 2,
            View::Geography => 3,
            View::Protocols => 4,
        }
    }

    /// The view at a place of the menu.
    pub open spec fn at(index: nat) -> View {
        if index == 0 {
            View::Packets
        } else if index == 1 {
            View::Sessions
        } else if index == 2 {
            View::Firewall
        } else if index == 3 {
            View::Geography
        } else {
            View::Protocols
        }
    }

    /// The view to the right, and from the last view the first.
    pub open spec fn spec_next(self) -> View {
        View::at((self.spec_index() + 1) % 5)
    }

    /// The view to the left, and from the first view the last.
    pub open spec fn spec_prev(self) -> View {
        View::at((self.spec_index() + 4) % 5)
    }

    /// The place of the view in the menu, from 0.
    pub fn index(&self) -> (r: usize)
        ensures
            r == self.spec_index(),
    {
        match self {
            View::Packets => 0,
            View::Sessions => 1,
            View::Firewall => 2,
            View::Geography => 3,
            View::Protocols => 4,
        }
    }

    /// The title of the view in the menu.
    pub fn title(&self) -> (r: &'static str)
        ensures
            r@ == (match self {
                View::Packets => "Packets"@,
                View::Sessions => "Sessions"@,
                View::Firewall => "Firewall"@,
                View::Geography => "Geography"@,
                View::Protocols => "Protocols"@,
            }),
    {
        match self {
            View::Packets => "Packets",
            View::Sessions => "Sessions",
            View::Firewall => "Firewall",
            View::Geography => "Geography",
            View::Protocols => "Protocols",
        }
    }

    /// The view to the right, and from the last view the first.
    pub fn next(&self) -> (r: View)
        ensures
            r == self.spec_next(),
    {
        match self {
            View::Packets => View::Sessions,
            View::Sessions => View::Firewall,
            View::Firewall => View::Geography,
            View::Geography => View::Protocols,
            View::Protocols => View::Packets,
        }
    }

    /// The view to the left, and from the first view the last.
    pub fn prev(&self) -> (r: View)
        ensures
            r == self.spec_prev(),
    {
        match self {
            View::Packets => View::Protocols,
            View::Sessions => View::Packets,
            View::Firewall => View::Sessions,
            View::Geography => View::Firewall,
            View::Protocols => View::Geography,
        }
    }
}

/// Going right and then left, or left and then right, leads back.
pub proof fn lemma_next_prev(view: View)
    ensures
        view.spec_next().spec_prev() == view,
        view.spec_prev().spec_next() == view,
{
}

/// What of the screen a key press can change.
pub struct NavState {
    pub view: View,
    pub selected: Option<usize>,
    pub should_quit: bool,
}

/// The key asks to leave the screen.
pub open spec fn is_quit_key(key: Key) -> bool {
    key == Key::Char('q') || key == Key::Char('Q') || key == Key::Esc
}

/// The state after a key press on a screen that lists `rules` rules. The
/// digits 1 to 5 choose a view and the arrows left and right step through
/// the views; up and down move the selection within the list; `q`, `Q` and
/// escape ask to leave. Every other key changes nothing.
pub open spec fn after_key(nav: NavState, key: Key, rules: nat) -> NavState {
    if is_quit_key(key) {
        NavState { should_quit: true, ..nav }
    } else if key == Key::Char('1') {
        NavState { view: View::Packets, ..nav }
    } else if key == Key::Char('2') {
        NavState { view: View::Sessions, ..nav }
    } else if key == Key::Char('3') {
        NavState { view: View::Firewall, ..nav }
    } else if key == Key::Char('4') {
        NavState { view: View::Geography, ..nav }
    } else if key == Key::Char('5') {
        NavState { view: View::Protocols, ..nav }
    } else if key == Key::Right {
        NavState { view: nav.view.spec_next(), ..nav }
    } else if key == Key::Left {
        NavState { view: nav.view.spec_prev(), ..nav }
    } else if key == Key::Down {
        match nav.selected {
            Some(at) => if at + 1 < rules {
                NavState { selected: Some((at + 1) as usize), ..nav }
            } else {
                nav
            },
            None => nav,
        }
    } else if key == Key::Up {
        match nav.selected {
            Some(at) => if at > 0 {
                NavState { selected: Some((at - 1) as usize), ..nav }
            } else {
                nav
            },
            None => nav,
        }
    } else {
        nav
    }
}

/// The protocol named in the log line of the tick `counter`.
pub open spec fn spec_log_protocol(counter: u64) -> Seq<char> {
    let k = counter % 5;
    if k == 0 {
        "TCP"@
    } else if k == 1 {
        "UDP"@
    } else if k == 2 {
        "HTTP"@
    } else if k == 3 {
        "DNS"@
    } else {
        "HTTPS"@
    }
}

/// The log line of the tick `counter`.
pub open spec fn spec_log_line(counter: u64) -> Seq<char> {
    "Packet "@ + decimal_digits(counter as nat) + ": "@ + spec_log_protocol(counter)
        + " 192.168.1."@ + decimal_digits((counter % 255) as nat) + " -> 10.0.0."@
        + decimal_digits(((counter + 1) % 255) as nat)
}

/// The figures after the tick `counter`.
pub open spec fn spec_tick_stats(stats: LiveStats, counter: u64) -> LiveStats {
    LiveStats {
        packets_per_second: (1200 + counter % 100) as u64,
        traffic_in_tenths: (12 + counter % 10) as u64,
        traffic_out_tenths: (8 + counter % 8) as u64,
        active_connections: (40 + counter % 10) as usize,
        blocked_connections: (10 + counter % 5) as u64,
        active_rules: stats.active_rules,
    }
}

/// The packet log after the tick `counter`: every third tick puts a line in
/// front, and the oldest line leaves a log that is full.
pub open spec fn spec_tick_log(log: Seq<Seq<char>>, counter: u64) -> Seq<Seq<char>> {
    if counter % 3 == 0 {
        if log.len() >= PACKET_LOG_CAPACITY {
            seq![spec_log_line(counter)] + log.drop_last()
        } else {
            seq![spec_log_line(counter)] + log
        }
    } else {
        log
    }
}

/// The characters of each line of a log.
pub open spec fn lines_view(log: Seq<String>) -> Seq<Seq<char>> {
    Seq::new(log.len(), |i: int| log[i]@)
}

/// The screen: the view shown, the lines of the packet log with the newest
/// first, the rules and connections listed, the figures, and the rule
/// selected.
pub struct App {
    pub current_view: View,
    pub packet_log: VecDeque<String>,
    pub firewall_rules: Vec<String>,
    pub active_connections: Vec<Connection>,
    pub stats: LiveStats,
    pub selected: Option<usize>,
    pub should_quit: bool,
}

/// The connection holds the given texts.
pub open spec fn is_connection(
    c: Connection,
    protocol: Seq<char>,
    source: Seq<char>,
    destination: Seq<char>,
    status: Seq<char>,
    duration: Seq<char>,
) -> bool {
    &&& c.protocol@ == protocol
    &&& c.source@ == source
    &&& c.destination@ == destination
    &&& c.status@ == status
    &&& c.duration@ == duration
}

/// A connection of the given texts.
fn connection(
    protocol: &str,
    source: &str,
    destination: &str,
    status: &str,
    duration: &str,
) -> (r: Connection)
    ensures
        is_connection(r, protocol@, source@, destination@, status@, duration@),
{
    Connection {
        protocol: protocol.to_owned(),
        source: source.to_owned(),
        destination: destination.to_owned(),
        status: status.to_owned(),
        duration: duration.to_owned(),
    }
}

/// The log line of the tick `counter`.
pub fn log_line(counter: u64) -> (r: String)
    ensures
        r@ == spec_log_line(counter),
{
    let mut line = String::from_str("Packet ");
    append_decimal(&mut line, counter);
    line.append(": ");
    let k = counter % 5;
    let protocol = if k == 0 {
        "TCP"
    } else if k == 1 {
        "UDP"
    } else if k == 2 {
        "HTTP"
    } else if k == 3 {
        "DNS"
    } else {
        "HTTPS"
    };
    line.append(protocol);
    line.append(" 192.168.1.");
    append_decimal(&mut line, counter % 255);
    line.append(" -> 10.0.0.");
    let next = (counter % 255 + 1) % 255;
    assert(next == (counter + 1) % 255);
    append_decimal(&mut line, next);
    line
}

impl App {
    /// What a key press can change.
    pub open spec fn nav(&self) -> NavState {
        NavState { view: self.current_view, selected: self.selected, should_quit: self.should_quit }
    }

    /// The screen as it starts: the packets view, an empty log, the sample
    /// rules and connections, and the first rule selected.
    pub fn new() -> (r: App)
        ensures
            r.current_view == View::Packets,
            r.packet_log@.len() == 0,
            r.firewall_rules@.len() == 4,
            r.firewall_rules@[0]@ == "ALLOW 192.168.1.0/24 → ANY/ANY"@,
            r.firewall_rules@[1]@ == "BLOCK 10.0.0.5 → ANY/22"@,
            r.firewall_rules@[2]@ == "ALLOW ANY → 8.8.8.8/53"@,
            r.firewall_rules@[3]@ == "BLOCK 192.168.1.100 → ANY/ANY"@,
            r.active_connections@.len() == 4,
            is_connection(
                r.active_connections@[0],
                "TCP"@,
                "192.168.1.15:44324"@,
                "93.184.216.34:443"@,
                "ESTABLISHED"@,
                "05:32"@,
            ),
            is_connection(
                r.active_connections@[1],
                "UDP"@,
                "192.168.1.20:5353"@,
                "224.0.0.251:5353"@,
                "LISTEN"@,
                "12:45"@,
            ),
            is_connection(
                r.active_connections@[2],
                "HTTP"@,
                "192.168.1.25:8080"@,
                "192.168.1.1:80"@,
                "ESTABLISHED"@,
                "00:45"@,
            ),
            is_connection(
                r.active_connections@[3],
                "DNS"@,
                "192.168.1.15:49152"@,
                "8.8.8.8:53"@,
                "CLOSED"@,
                "00:01"@,
            ),
            r.stats == (LiveStats {
                packets_per_second: 1234,
                traffic_in_tenths: 12,
                traffic_out_tenths: 8,
                active_connections: 45,
                blocked_connections: 12,
                active_rules: 24,
            }),
            r.selected == Some(0usize),
            !r.should_quit,
    {
        let mut firewall_rules: Vec<String> = Vec::new();
        firewall_rules.push(String::from_str("ALLOW 192.168.1.0/24 → ANY/ANY"));
        firewall_rules.push(String::from_str("BLOCK 10.0.0.5 → ANY/22"));
        firewall_rules.push(String::from_str("ALLOW ANY → 8.8.8.8/53"));
        firewall_rules.push(String::from_str("BLOCK 192.168.1.100 → ANY/ANY"));
        let mut active_connections: Vec<Connection> = Vec::new();
        active_connections.push(
            connection("TCP", "192.168.1.15:44324", "93.184.216.34:443", "ESTABLISHED", "05:32"),
        );
        active_connections.push(
            connection("UDP", "192.168.1.20:5353", "224.0.0.251:5353", "LISTEN", "12:45"),
        );
        active_connections.push(
            connection("HTTP", "192.168.1.25:8080", "192.168.1.1:80", "ESTABLISHED", "00:45"),
        );
        active_connections.push(
            connection("DNS", "192.168.1.15:49152", "8.8.8.8:53", "CLOSED", "00:01"),
        );
        App {
            current_view: View::Packets,
            packet_log: VecDeque::new(),
            firewall_rules,
            active_connections,
            stats: LiveStats {
                packets_per_second: 1234,
                traffic_in_tenths: 12,
                traffic_out_tenths: 8,
                active_connections: 45,
                blocked_connections: 12,
                active_rules: 24,
            },
            selected: Some(0),
            should_quit: false,
        }
    }

    /// Takes a key press, and says whether it asks to leave the screen.
    pub fn handle_key(&mut self, key: Key) -> (r: bool)
        ensures
            r == is_quit_key(key),
            final(self).nav() == after_key(old(self).nav(), key, old(self).firewall_rules@.len()),
            final(self).packet_log == old(self).packet_log,
            final(self).firewall_rules == old(self).firewall_rules,
            final(self).active_connections == old(self).active_connections,
            final(self).stats == old(self).stats,
    {
        match key {
            Key::Char(c) => {
                if c == 'q' || c == 'Q' {
                    self.should_quit = true;
                    return true;
                } else if c == '1' {
                    self.current_view = View::Packets;
                } else if c == '2' {
                    self.current_view = View::Sessions;
                } else if c == '3' {
                    self.current_view = View::Firewall;
                } else if c == '4' {
                    self.current_view = View::Geography;
                } else if c == '5' {
                    self.current_view = View::Protocols;
                }
                false
            },
            Key::Esc => {
                self.should_quit = true;
                true
            },
            Key::Right => {
                self.current_view = self.current_view.next();
                false
            },
            Key::Left => {
                self.current_view = self.current_view.prev();
                false
            },
            Key::Down => {
                match self.selected {
                    Some(at) => {
                        if self.firewall_rules.len() > 0 && at < self.firewall_rules.len() - 1 {
                            self.selected = Some(at + 1);
                        }
                    },
                    None => {},
                }
                false
            },
            Key::Up => {
                match self.selected {
                    Some(at) => {
                        if at > 0 {
                            self.selected = Some(at - 1);
                        }
                    },
                    None => {},
                }
                false
            },
            Key::Other => false,
        }
    }

    /// Takes the tick `counter` of the clock: the figures move, and every
    /// third tick a line goes into the packet log.
    pub fn tick(&mut self, counter: u64)
        ensures
            final(self).stats == spec_tick_stats(old(self).stats, counter),
            lines_view(final(self).packet_log@) == spec_tick_log(
                lines_view(old(self).packet_log@),
                counter,
            ),
            final(self).nav() == old(self).nav(),
            final(self).firewall_rules == old(self).firewall_rules,
            final(self).active_connections == old(self).active_connections,
    {
        self.stats.packets_per_second = 1200 + counter % 100;
        self.stats.traffic_in_tenths = 12 + counter % 10;
        self.stats.traffic_out_tenths = 8 + counter % 8;
        self.stats.active_connections = 40 + (counter % 10) as usize;
        self.stats.blocked_connections = 10 + counter % 5;
        if counter % 3 == 0 {
            let line = log_line(counter);
            if self.packet_log.len() >= PACKET_LOG_CAPACITY {
                let _ = self.packet_log.pop_back();
            }
            self.packet_log.push_front(line);
            assert(lines_view(self.packet_log@) =~= spec_tick_log(
                lines_view(old(self).packet_log@),
                counter,
            ));
        }
    }
}

} // verus!
